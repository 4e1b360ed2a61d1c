use vstd::arithmetic::div_mod::lemma_div_is_ordered;
use vstd::arithmetic::div_mod::lemma_div_multiples_vanish;
use vstd::arithmetic::div_mod::lemma_div_pos_is_pos;
use vstd::prelude::*;

use crate::entity::kind_label;
use crate::entity::lemma_child_le_sum;
use crate::entity::sum_sizes;
use crate::entity::wf;
use crate::entity::FSEntity;
use crate::entity::FSType;
use crate::render::format_hundredths;
use crate::render::format_path;
use crate::render::format_size;
use crate::render::hundredths_rep;
use crate::render::spec_format_path;
use crate::render::spec_format_size;

verus! {

/// The share of the parent's size that a child holds, in hundredths of
/// a percent, rounded down; 0 when the parent is empty, so that an
/// empty directory never divides by zero.
pub open spec fn spec_pct_hundredths(child: u64, parent: u64) -> nat {
    if parent == 0 {
        0
    } else {
        ((child as nat) * 10000) / (parent as nat)
    }
}

/// A displayed percentage always lies between 0 and 100.
pub proof fn lemma_pct_in_range(child: u64, parent: u64)
    requires
        child <= parent || parent == 0,
    ensures
        0 <= spec_pct_hundredths(child, parent) <= 10000,
{
    if parent > 0 {
        let c = child as int;
        let p = parent as int;
        lemma_div_pos_is_pos(c * 10000, p);
        lemma_div_is_ordered(c * 10000, p * 10000, p);
        lemma_div_multiples_vanish(10000, p);
    }
}

/// Within a resolved directory, every child's displayed percentage of
/// its parent lies between 0 and 100.
pub proof fn lemma_child_pct_in_range(children: Seq<FSEntity>, parent_size: u64, i: int)
    requires
        parent_size == sum_sizes(children),
        0 <= i < children.len(),
    ensures
        0 <= spec_pct_hundredths(children[i].size, parent_size) <= 10000,
{
    lemma_child_le_sum(children, i);
    lemma_pct_in_range(children[i].size, parent_size);
}

/// Computes a child's share of its parent in hundredths of a percent.
pub fn pct_hundredths(child: u64, parent: u64) -> (h: u64)
    requires
        child <= parent || parent == 0,
    ensures
        h as nat == spec_pct_hundredths(child, parent),
        h <= 10000,
{
    if parent == 0 {
        0
    } else {
        proof {
            lemma_pct_in_range(child, parent);
        }
        let num: u128 = (child as u128) * 10000;
        let h: u128 = num / (parent as u128);
        h as u64
    }
}

/// One report line: the kind label, the formatted size, the percentage
/// of the direct parent, the depth marker, and the displayed path.
pub open spec fn spec_line(e: FSEntity, parent_size: u64, bars: Seq<char>) -> Seq<char> {
    kind_label(e.kind) + "\t["@ + spec_format_size(e.size) + " = "@ + hundredths_rep(
        spec_pct_hundredths(e.size, parent_size),
    ) + "%]\t"@ + bars + "|_ "@ + spec_format_path(e.path@)
}

/// The full report of a resolved tree, depth-first and pre-order: each
/// entry's line comes right before all of its children's lines, and
/// before any later sibling's line.
pub open spec fn spec_report(parent: FSEntity, bars: Seq<char>) -> Seq<Seq<char>>
    decreases parent, 0int,
{
    match parent.kind {
        FSType::File => Seq::empty(),
        FSType::Folder(children) => spec_report_children(children@, parent.size, bars),
    }
}

/// The report lines of a child list, in order.
pub open spec fn spec_report_children(children: Seq<FSEntity>, parent_size: u64, bars: Seq<char>) -> Seq<
    Seq<char>,
>
    decreases children, children.len(),
{
    if children.len() == 0 {
        Seq::empty()
    } else {
        seq![spec_line(children[0], parent_size, bars)] + spec_report(
            children[0],
            bars + "|"@,
        ) + spec_report_children(children.drop_first(), parent_size, bars)
    }
}

/// Reporting an unchanged tree twice yields byte-identical output: any
/// two line vectors produced for the same tree and the same depth
/// marker hold the same characters.
pub proof fn lemma_report_deterministic(
    a: Vec<String>,
    b: Vec<String>,
    e: FSEntity,
    bars: Seq<char>,
)
    requires
        a.deep_view() == spec_report(e, bars),
        b.deep_view() == spec_report(e, bars),
    ensures
        a.deep_view() == b.deep_view(),
{
}

/// Renders one report line.
pub fn render_line(e: &FSEntity, parent_size: u64, bars: &str) -> (s: String)
    requires
        e.size <= parent_size || parent_size == 0,
    ensures
        s@ == spec_line(*e, parent_size, bars@),
{
    let mut s = e.kind.printable_description().to_owned();
    s.append("\t[");
    let size_str = format_size(e.size);
    s.append(size_str.as_str());
    s.append(" = ");
    let h = pct_hundredths(e.size, parent_size);
    let pct_str = format_hundredths(h);
    s.append(pct_str.as_str());
    s.append("%]\t");
    s.append(bars);
    s.append("|_ ");
    let path_str = format_path(e.path.as_str());
    s.append(path_str.as_str());
    proof {
        assert(s@ =~= spec_line(*e, parent_size, bars@));
    }
    s
}

/// Walks a resolved tree and returns its report, one line per entry.
/// The walk is read-only: the same tree always yields the same lines.
pub fn report(parent: &FSEntity, bars: &str) -> (out: Vec<String>)
    requires
        wf(*parent),
    ensures
        out.deep_view() == spec_report(*parent, bars@),
    decreases *parent, 0int,
{
    match &parent.kind {
        FSType::File => {
            let out: Vec<String> = Vec::new();
            proof {
                assert(out.deep_view() =~~= spec_report(*parent, bars@));
            }
            out
        },
        FSType::Folder(children) => {
            proof {
                assert(decreases_to!(*parent => parent.kind));
            }
            let out = report_children(children, parent.size, bars, 0);
            proof {
                assert(children@.skip(0) =~= children@);
            }
            out
        },
    }
}

/// Reports the children of one directory from position `i` on.
fn report_children(children: &Vec<FSEntity>, parent_size: u64, bars: &str, i: usize) -> (out: Vec<
    String,
>)
    requires
        i <= children@.len(),
        parent_size == sum_sizes(children@),
        forall|j: int| 0 <= j < children@.len() ==> wf(#[trigger] children@[j]),
    ensures
        out.deep_view() == spec_report_children(children@.skip(i as int), parent_size, bars@),
    decreases children@, (children@.len() - i),
{
    if i == children.len() {
        let out: Vec<String> = Vec::new();
        proof {
            assert(out.deep_view() =~~= spec_report_children(
                children@.skip(i as int),
                parent_size,
                bars@,
            ));
        }
        out
    } else {
        proof {
            lemma_child_le_sum(children@, i as int);
        }
        let line = render_line(&children[i], parent_size, bars);
        let mut out: Vec<String> = Vec::new();
        out.push(line);
        let child = &children[i];
        let ghost sub_view = spec_report(children@[i as int], bars@ + "|"@);
        match &child.kind {
            FSType::Folder(_) => {
                let mut child_bars = bars.to_owned();
                child_bars.append("|");
                proof {
                    assert(decreases_to!(children@ => children@[i as int]));
                }
                let mut sub = report(child, child_bars.as_str());
                out.append(&mut sub);
            },
            FSType::File => {
                proof {
                    assert(sub_view =~~= Seq::<Seq<char>>::empty());
                }
            },
        }
        let mut rest = report_children(children, parent_size, bars, i + 1);
        let ghost rest_view = rest.deep_view();
        out.append(&mut rest);
        proof {
            let s = children@.skip(i as int);
            assert(s.drop_first() =~= children@.skip(i as int + 1));
            assert(s[0] == children@[i as int]);
            assert(out.deep_view() =~~= seq![spec_line(s[0], parent_size, bars@)] + sub_view
                + rest_view);
            assert(out.deep_view() =~~= spec_report_children(s, parent_size, bars@));
        }
        out
    }
}

} // verus!
