use vstd::multiset::Multiset;
use vstd::prelude::*;

use crate::order::lemma_lex_le_total;
use crate::order::lemma_lex_le_trans;
use crate::order::lex_le;
use crate::order::str_le;

verus! {

/// What a filesystem entry is: a directory with its fully resolved,
/// ordered children, or a plain file.
pub enum FSType {
    Folder(Vec<FSEntity>),
    File,
}

/// One resolved node of the result tree. An entity is built bottom-up by
/// [`FSEntity::file`] and [`FSEntity::folder`] and never changes afterwards.
pub struct FSEntity {
    pub path: String,
    pub size: u64,
    pub kind: FSType,
}

/// Directories rank above files when ordering siblings.
pub open spec fn rank(k: FSType) -> int {
    match k {
        FSType::Folder(_) => 1int,
        FSType::File => 0int,
    }
}

/// `a` may stand before `b` in a sorted child list: kind descending,
/// then size descending, then path ascending.
pub open spec fn precedes(a: FSEntity, b: FSEntity) -> bool {
    ||| rank(a.kind) > rank(b.kind)
    ||| (rank(a.kind) == rank(b.kind) && a.size > b.size)
    ||| (rank(a.kind) == rank(b.kind) && a.size == b.size && lex_le(a.path@, b.path@))
}

/// Every pair of entries in the sequence is ordered.
pub open spec fn sorted(s: Seq<FSEntity>) -> bool {
    forall|i: int, j: int| 0 <= i < j < s.len() ==> precedes(s[i], s[j])
}

/// The total byte count of a sequence of entries.
pub open spec fn sum_sizes(s: Seq<FSEntity>) -> int
    decreases s.len(),
{
    if s.len() == 0 {
        0
    } else {
        s[0].size + sum_sizes(s.drop_first())
    }
}

/// A fully resolved entity: every directory's size is the sum of its
/// children's sizes, and every child list is sorted. Files are always
/// resolved.
pub open spec fn wf(e: FSEntity) -> bool
    decreases e,
{
    match e.kind {
        FSType::File => true,
        FSType::Folder(children) => {
            &&& e.size == sum_sizes(children@)
            &&& sorted(children@)
            &&& forall|i: int| 0 <= i < children@.len() ==> wf(#[trigger] children@[i])
        },
    }
}

/// Any two entities are comparable under `precedes`.
pub proof fn lemma_precedes_total(a: FSEntity, b: FSEntity)
    ensures
        precedes(a, b) || precedes(b, a),
{
    if rank(a.kind) == rank(b.kind) && a.size == b.size {
        lemma_lex_le_total(a.path@, b.path@);
    }
}

/// `precedes` is transitive.
pub proof fn lemma_precedes_trans(a: FSEntity, b: FSEntity, c: FSEntity)
    requires
        precedes(a, b),
        precedes(b, c),
    ensures
        precedes(a, c),
{
    if rank(a.kind) == rank(b.kind) && rank(b.kind) == rank(c.kind) && a.size == b.size && b.size
        == c.size {
        lemma_lex_le_trans(a.path@, b.path@, c.path@);
    }
}

pub proof fn lemma_sum_sizes_nonneg(s: Seq<FSEntity>)
    ensures
        sum_sizes(s) >= 0,
    decreases s.len(),
{
    if s.len() > 0 {
        lemma_sum_sizes_nonneg(s.drop_first());
    }
}

pub proof fn lemma_sum_sizes_append(a: Seq<FSEntity>, b: Seq<FSEntity>)
    ensures
        sum_sizes(a + b) == sum_sizes(a) + sum_sizes(b),
    decreases a.len(),
{
    if a.len() == 0 {
        assert(a + b =~= b);
    } else {
        assert((a + b).drop_first() =~= a.drop_first() + b);
        assert((a + b)[0] == a[0]);
        lemma_sum_sizes_append(a.drop_first(), b);
    }
}

pub proof fn lemma_sum_sizes_singleton(e: FSEntity)
    ensures
        sum_sizes(seq![e]) == e.size,
{
    assert(seq![e].drop_first() =~= Seq::<FSEntity>::empty());
    assert(sum_sizes(Seq::<FSEntity>::empty()) == 0);
}

/// Inserting an entry anywhere adds exactly its size to the total.
pub proof fn lemma_sum_sizes_insert(s: Seq<FSEntity>, i: int, e: FSEntity)
    requires
        0 <= i <= s.len(),
    ensures
        sum_sizes(s.insert(i, e)) == sum_sizes(s) + e.size,
{
    let s0 = s.subrange(0, i);
    let s1 = s.subrange(i, s.len() as int);
    assert(s =~= s0 + s1);
    assert(s.insert(i, e) =~= s0 + (seq![e] + s1));
    lemma_sum_sizes_append(s0, s1);
    lemma_sum_sizes_append(s0, seq![e] + s1);
    lemma_sum_sizes_append(seq![e], s1);
    lemma_sum_sizes_singleton(e);
}

/// No single entry outweighs the total of its sequence.
pub proof fn lemma_child_le_sum(s: Seq<FSEntity>, i: int)
    requires
        0 <= i < s.len(),
    ensures
        s[i].size <= sum_sizes(s),
    decreases s.len(),
{
    if i == 0 {
        lemma_sum_sizes_nonneg(s.drop_first());
    } else {
        lemma_child_le_sum(s.drop_first(), i - 1);
    }
}

pub proof fn lemma_sum_sizes_take_next(s: Seq<FSEntity>, i: int)
    requires
        0 <= i < s.len(),
    ensures
        sum_sizes(s.take(i + 1)) == sum_sizes(s.take(i)) + s[i].size,
{
    assert(s.take(i + 1) =~= s.take(i) + seq![s[i]]);
    lemma_sum_sizes_append(s.take(i), seq![s[i]]);
    lemma_sum_sizes_singleton(s[i]);
}

/// A prefix never outweighs the whole sequence.
pub proof fn lemma_sum_sizes_take_le(s: Seq<FSEntity>, i: int)
    requires
        0 <= i <= s.len(),
    ensures
        sum_sizes(s.take(i)) <= sum_sizes(s),
{
    assert(s =~= s.take(i) + s.skip(i));
    lemma_sum_sizes_append(s.take(i), s.skip(i));
    lemma_sum_sizes_nonneg(s.skip(i));
}

/// A sequence of entries never outweighs one maximal size per entry.
pub proof fn lemma_sum_sizes_bounded(s: Seq<FSEntity>)
    ensures
        sum_sizes(s) <= s.len() * 0xFFFF_FFFF_FFFF_FFFF,
    decreases s.len(),
{
    if s.len() > 0 {
        lemma_sum_sizes_bounded(s.drop_first());
        assert((s.len() - 1) * 0xFFFF_FFFF_FFFF_FFFF + 0xFFFF_FFFF_FFFF_FFFF == s.len()
            * 0xFFFF_FFFF_FFFF_FFFF) by (nonlinear_arith);
    }
}

proof fn lemma_precedes_span(s: Seq<FSEntity>, i: int, j: int)
    requires
        forall|k: int| 0 <= k < s.len() - 1 ==> precedes(#[trigger] s[k], s[k + 1]),
        0 <= i < j < s.len(),
    ensures
        precedes(s[i], s[j]),
    decreases j - i,
{
    if j > i + 1 {
        lemma_precedes_span(s, i, j - 1);
        lemma_precedes_trans(s[i], s[j - 1], s[j]);
    }
}

/// A child list in which every entry is ordered against its direct
/// neighbour is sorted throughout.
pub proof fn lemma_sorted_from_adjacent(s: Seq<FSEntity>)
    requires
        forall|k: int| 0 <= k < s.len() - 1 ==> precedes(#[trigger] s[k], s[k + 1]),
    ensures
        sorted(s),
{
    assert forall|i: int, j: int| 0 <= i < j < s.len() implies precedes(s[i], s[j]) by {
        lemma_precedes_span(s, i, j);
    }
}

/// The numeric rank of a kind tag.
fn kind_rank(k: &FSType) -> (r: u8)
    ensures
        r as int == rank(*k),
{
    match k {
        FSType::Folder(_) => 1,
        FSType::File => 0,
    }
}

/// Decides the sibling order between two entities.
pub fn entity_precedes(a: &FSEntity, b: &FSEntity) -> (r: bool)
    ensures
        r == precedes(*a, *b),
{
    let ra = kind_rank(&a.kind);
    let rb = kind_rank(&b.kind);
    if ra != rb {
        ra > rb
    } else if a.size != b.size {
        a.size > b.size
    } else {
        str_le(a.path.as_str(), b.path.as_str())
    }
}

/// Places one entry into an already sorted child list, keeping it sorted.
pub fn insert_child(list: &mut Vec<FSEntity>, e: FSEntity)
    requires
        sorted(old(list)@),
    ensures
        sorted(final(list)@),
        final(list)@.to_multiset() == old(list)@.to_multiset().insert(e),
        sum_sizes(final(list)@) == sum_sizes(old(list)@) + e.size,
        final(list)@.len() == old(list)@.len() + 1,
        forall|j: int|
            0 <= j < final(list)@.len() ==> (#[trigger] final(list)@[j] == e || exists|k: int|
                0 <= k < old(list)@.len() && final(list)@[j] == old(list)@[k]),
{
    let ghost s = list@;
    let mut i: usize = 0;
    while i < list.len() && entity_precedes(&list[i], &e)
        invariant
            i <= s.len(),
            list@ == s,
            forall|k: int| 0 <= k < i ==> precedes(#[trigger] s[k], e),
        decreases s.len() - i,
    {
        i = i + 1;
    }
    proof {
        if (i as int) < s.len() {
            lemma_precedes_total(s[i as int], e);
            assert(precedes(e, s[i as int]));
        }
        assert forall|j: int| i <= j < s.len() implies precedes(e, #[trigger] s[j]) by {
            if j > i {
                lemma_precedes_trans(e, s[i as int], s[j]);
            }
        }
        lemma_sum_sizes_insert(s, i as int, e);
        broadcast use vstd::seq_lib::to_multiset_insert;

    }
    list.insert(i, e);
    proof {
        let t = list@;
        s.insert_ensures(i as int, e);
        assert forall|p: int, q: int| 0 <= p < q < t.len() implies precedes(t[p], t[q]) by {
            if q < i {
            } else if q == i {
                assert(t[p] == s[p]);
            } else {
                assert(t[q] == s[q - 1]);
                if p < i {
                    assert(t[p] == s[p]);
                } else if p == i {
                    assert(precedes(e, s[q - 1]));
                } else {
                    assert(t[p] == s[p - 1]);
                }
            }
        }
    }
}

impl FSEntity {
    /// Builds a resolved file entry. A file whose metadata could not be read
    /// is recorded with size 0.
    pub fn file(path: String, size: Option<u64>) -> (r: FSEntity)
        ensures
            r.path == path,
            r.kind matches FSType::File,
            r.size == (match size {
                Some(n) => n,
                None => 0u64,
            }),
            wf(r),
    {
        let s: u64 = match size {
            Some(n) => n,
            None => 0,
        };
        FSEntity { path, size: s, kind: FSType::File }
    }

    /// Builds a resolved directory entry from its fully resolved children:
    /// the children are sorted once, and the directory's size is exactly the
    /// sum of its children's sizes. An unreadable directory is the special
    /// case of an empty child list, which yields size 0.
    pub fn folder(path: String, children: Vec<FSEntity>) -> (r: FSEntity)
        requires
            sum_sizes(children@) <= u64::MAX,
            forall|i: int| 0 <= i < children@.len() ==> wf(#[trigger] children@[i]),
        ensures
            r.path == path,
            r.size == sum_sizes(children@),
            r.kind matches FSType::Folder(cs) && cs@.to_multiset() == children@.to_multiset()
                && sorted(cs@),
            wf(r),
    {
        broadcast use vstd::seq_lib::group_to_multiset_ensures;
    
        let ghost input = children@;
        let mut rest = children;
        let mut ordered: Vec<FSEntity> = Vec::new();
        proof {
            assert(ordered@.to_multiset().add(rest@.to_multiset()) =~= input.to_multiset());
        }
        while rest.len() > 0
            invariant
                sorted(ordered@),
                ordered@.to_multiset().add(rest@.to_multiset()) == input.to_multiset(),
                sum_sizes(ordered@) + sum_sizes(rest@) == sum_sizes(input),
                forall|j: int| 0 <= j < rest@.len() ==> wf(#[trigger] rest@[j]),
                forall|j: int| 0 <= j < ordered@.len() ==> wf(#[trigger] ordered@[j]),
            decreases rest@.len(),
        {
            let ghost before = rest@;
            let ghost ordered_before = ordered@;
            let e = rest.pop().unwrap();
            proof {
                assert(before =~= rest@.push(e));
                vstd::seq_lib::to_multiset_build::<FSEntity>(rest@, e);
                assert(before.to_multiset() == rest@.to_multiset().insert(e));
                assert(before =~= rest@ + seq![e]);
                lemma_sum_sizes_append(rest@, seq![e]);
                lemma_sum_sizes_singleton(e);
                assert(wf(before[before.len() - 1]));
            }
            insert_child(&mut ordered, e);
            proof {
                assert(ordered@.to_multiset().add(rest@.to_multiset()) =~= input.to_multiset());
                assert forall|j: int| 0 <= j < ordered@.len() implies wf(#[trigger] ordered@[j]) by {
                    if ordered@[j] == e {
                    } else {
                        let k = choose|k: int|
                            0 <= k < ordered_before.len() && ordered@[j] == ordered_before[k];
                        assert(wf(ordered_before[k]));
                    }
                }
            }
        }
        proof {
            assert(rest@.to_multiset() =~= Multiset::<FSEntity>::empty());
            assert(ordered@.to_multiset() =~= input.to_multiset());
        }
        let mut total: u64 = 0;
        let mut i: usize = 0;
        proof {
            assert(ordered@.take(0) =~= Seq::<FSEntity>::empty());
        }
        while i < ordered.len()
            invariant
                i <= ordered@.len(),
                total == sum_sizes(ordered@.take(i as int)),
                sum_sizes(ordered@) == sum_sizes(input),
                sum_sizes(input) <= u64::MAX,
            decreases ordered@.len() - i,
        {
            proof {
                lemma_sum_sizes_take_next(ordered@, i as int);
                lemma_sum_sizes_take_le(ordered@, i as int + 1);
            }
            total = total + ordered[i].size;
            i = i + 1;
        }
        proof {
            assert(ordered@.take(ordered@.len() as int) =~= ordered@);
        }
        let r = FSEntity { path, size: total, kind: FSType::Folder(ordered) };
        r
    }

    /// Decides at run time whether a tree is fully resolved, so that an
    /// unverified caller can test the preconditions of `folder` and
    /// `report` before relying on them.
    #[verifier::loop_isolation(false)]
    pub fn is_resolved(&self) -> (r: bool)
        ensures
            r == wf(*self),
        decreases *self,
    {
        match &self.kind {
            FSType::File => true,
            FSType::Folder(children) => {
                let n = children.len();
                let mut i: usize = 0;
                while i < n
                    invariant
                        n == children@.len(),
                        i <= n,
                        forall|j: int| 0 <= j < i ==> wf(#[trigger] children@[j]),
                    decreases n - i,
                {
                    if !children[i].is_resolved() {
                        return false;
                    }
                    i = i + 1;
                }
                if n > 0 {
                    let mut k: usize = 0;
                    while k < n - 1
                        invariant
                            n == children@.len(),
                            0 < n,
                            k <= n - 1,
                            forall|j: int|
                                0 <= j < k ==> precedes(#[trigger] children@[j], children@[j + 1]),
                        decreases n - k,
                    {
                        if !entity_precedes(&children[k], &children[k + 1]) {
                            proof {
                                if wf(*self) {
                                    assert(precedes(children@[k as int], children@[k as int + 1]));
                                }
                            }
                            return false;
                        }
                        k = k + 1;
                    }
                }
                proof {
                    lemma_sorted_from_adjacent(children@);
                    assert(children@.take(0) =~= Seq::<FSEntity>::empty());
                }
                let mut total: u128 = 0;
                let mut t: usize = 0;
                while t < n
                    invariant
                        n == children@.len(),
                        t <= n,
                        total == sum_sizes(children@.take(t as int)),
                    decreases n - t,
                {
                    proof {
                        lemma_sum_sizes_take_next(children@, t as int);
                        lemma_sum_sizes_bounded(children@.take(t as int));
                    }
                    total = total + (children[t].size as u128);
                    t = t + 1;
                }
                proof {
                    assert(children@.take(n as int) =~= children@);
                }
                total == (self.size as u128)
            },
        }
    }
}

impl FSType {
    /// The resolved children of a directory kind.
    pub fn list(&self) -> (r: &Vec<FSEntity>)
        requires
            *self matches FSType::Folder(..),
        ensures
            *self matches FSType::Folder(children) && r@ == children@,
    {
        match self {
            FSType::Folder(list) => list,
            FSType::File => unreached(),
        }
    }

    /// The label under which this kind is reported.
    pub fn printable_description(&self) -> (r: &'static str)
        ensures
            r@ == kind_label(*self),
    {
        match self {
            FSType::Folder(_) => "FOLDER",
            FSType::File => "FILE",
        }
    }
}

/// The report label of a kind tag.
pub open spec fn kind_label(k: FSType) -> Seq<char> {
    match k {
        FSType::Folder(_) => "FOLDER"@,
        FSType::File => "FILE"@,
    }
}

/// Every resolved directory's size is exactly the sum of its direct
/// children's sizes; a resolved file's size is the recorded metadata
/// length.
pub proof fn lemma_folder_size_is_sum_of_children(children: Vec<FSEntity>, e: FSEntity)
    requires
        wf(e),
        e.kind == FSType::Folder(children),
    ensures
        e.size == sum_sizes(children@),
{
}

/// In a sorted child list, an earlier sibling never ranks below a later
/// one; on equal kinds its size is no smaller; and on equal kinds and
/// sizes its path is no greater.
pub proof fn lemma_siblings_ordered(s: Seq<FSEntity>, i: int, j: int)
    requires
        sorted(s),
        0 <= i < j < s.len(),
    ensures
        rank(s[i].kind) >= rank(s[j].kind),
        rank(s[i].kind) == rank(s[j].kind) ==> s[i].size >= s[j].size,
        (rank(s[i].kind) == rank(s[j].kind) && s[i].size == s[j].size) ==> lex_le(
            s[i].path@,
            s[j].path@,
        ),
{
    assert(precedes(s[i], s[j]));
}

} // verus!
