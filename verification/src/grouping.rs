//! How separators divide the digits of a candidate into groups.

use vstd::prelude::*;
use crate::bytes::separator;

verus! {

/// The groups of a candidate, read off its bytes.
#[derive(Clone, Debug)]
pub struct Grouping {
    /// The number of digits of each group, from left to right.
    pub sizes: Vec<u8>,
    /// The first separator, or zero where there is none.
    pub sep: u8,
    /// Whether a later separator differs from the first.
    pub mixed_sep: bool,
}

/// The mathematical content of a [`Grouping`].
#[verifier::ext_equal]
pub struct GroupingView {
    pub sizes: Seq<nat>,
    pub sep: u8,
    pub mixed_sep: bool,
}

impl View for Grouping {
    type V = GroupingView;

    open spec fn view(&self) -> GroupingView {
        GroupingView {
            sizes: self.sizes@.map_values(|size: u8| size as nat),
            sep: self.sep,
            mixed_sep: self.mixed_sep,
        }
    }
}

/// The sizes of the groups in a text: each separator opens a new group, every other byte
/// extends the last one.
pub open spec fn group_sizes(text: Seq<u8>) -> Seq<nat>
    decreases text.len(),
{
    if text.len() == 0 {
        seq![0nat]
    } else {
        let before = group_sizes(text.drop_last());
        if separator(text.last()) {
            before.push(0)
        } else {
            before.update(before.len() - 1, before.last() + 1)
        }
    }
}

/// The separators of a text, from left to right.
pub open spec fn separators(text: Seq<u8>) -> Seq<u8>
    decreases text.len(),
{
    if text.len() == 0 {
        seq![]
    } else if separator(text.last()) {
        separators(text.drop_last()).push(text.last())
    } else {
        separators(text.drop_last())
    }
}

/// The grouping of the bytes of a candidate.
pub open spec fn grouping_of(text: Seq<u8>) -> GroupingView {
    let seps = separators(text);
    GroupingView {
        sizes: group_sizes(text),
        sep: if seps.len() == 0 {
            0
        } else {
            seps[0]
        },
        mixed_sep: exists|i: int| 0 <= i < seps.len() && #[trigger] seps[i] != seps[0],
    }
}

/// A grouping that matches a convention for writing card numbers. One group, and digits that
/// all stand alone behind one separator, always do. Otherwise one separator is used throughout,
/// and the groups are those that issuers print, where it is a space, or of three to six digits,
/// where it is a dash or a dot.
pub open spec fn card_shaped(g: GroupingView) -> bool {
    ||| g.sizes.len() <= 1
    ||| {
        &&& !g.mixed_sep
        &&& {
            ||| forall|i: int| 0 <= i < g.sizes.len() ==> #[trigger] g.sizes[i] == 1
            ||| {
                &&& g.sep == ' ' as u8
                &&& {
                    ||| g.sizes == seq![4nat, 4, 4, 4]
                    ||| g.sizes == seq![4nat, 6, 5]
                    ||| g.sizes == seq![4nat, 6, 4]
                }
            }
            ||| {
                &&& g.sep == '-' as u8 || g.sep == '.' as u8
                &&& forall|i: int| 0 <= i < g.sizes.len() ==> 3 <= #[trigger] g.sizes[i] <= 6
            }
        }
    }
}

/// Whether every group has between `low` and `high` digits.
fn sizes_within(sizes: &Vec<u8>, low: u8, high: u8) -> (r: bool)
    ensures
        r == forall|i: int| 0 <= i < sizes@.len() ==> low <= #[trigger] sizes@[i] <= high,
{
    let mut i: usize = 0;
    while i < sizes.len()
        invariant
            i <= sizes@.len(),
            forall|j: int| 0 <= j < i ==> low <= #[trigger] sizes@[j] <= high,
        decreases sizes@.len() - i,
    {
        if sizes[i] < low || sizes[i] > high {
            return false;
        }
        i += 1;
    }
    true
}

/// Whether the grouping matches a convention for writing card numbers; see [`card_shaped`].
pub fn grouping_is_card_shaped(g: &Grouping) -> (r: bool)
    ensures
        r == card_shaped(g@),
{
    let sizes: &Vec<u8> = &g.sizes;
    let n: usize = sizes.len();
    proof {
        assert(g@.sizes.len() == n);
        assert(forall|i: int| 0 <= i < n ==> #[trigger] g@.sizes[i] == sizes@[i]);
    }
    if n <= 1 {
        return true;
    }
    if g.mixed_sep {
        return false;
    }
    if sizes_within(sizes, 1, 1) {
        proof {
            assert forall|i: int| 0 <= i < g@.sizes.len() implies #[trigger] g@.sizes[i] == 1 by {
                assert(1 <= sizes@[i] <= 1);
            }
        }
        return true;
    }
    proof {
        let bad = choose|i: int| 0 <= i < n && !(1 <= #[trigger] sizes@[i] <= 1);
        assert(g@.sizes[bad] != 1);
    }
    if g.sep == ' ' as u8 {
        let r: bool = n == 4 && sizes[0] == 4 && sizes[1] == 4 && sizes[2] == 4 && sizes[3] == 4
            || n == 3 && sizes[0] == 4 && sizes[1] == 6 && (sizes[2] == 5 || sizes[2] == 4);
        proof {
            if n == 4 && r {
                assert(g@.sizes =~= seq![4nat, 4, 4, 4]);
            }
            if n == 3 && r {
                assert(g@.sizes =~= seq![4nat, 6, 5] || g@.sizes =~= seq![4nat, 6, 4]);
            }
        }
        r
    } else if g.sep == '-' as u8 || g.sep == '.' as u8 {
        let r: bool = sizes_within(sizes, 3, 6);
        proof {
            if r {
                assert forall|i: int| 0 <= i < n implies 3 <= #[trigger] g@.sizes[i] <= 6 by {
                    assert(3 <= sizes@[i] <= 6);
                }
            } else {
                let bad = choose|i: int| 0 <= i < n && !(3 <= #[trigger] sizes@[i] <= 6);
                assert(!(3 <= g@.sizes[bad] <= 6));
            }
        }
        r
    } else {
        false
    }
}

/// The same groups behind another separator.
pub open spec fn behind(g: GroupingView, sep: u8) -> GroupingView {
    GroupingView { sizes: g.sizes, sep, mixed_sep: g.mixed_sep }
}

/// Every group has from `low` to `high` digits.
pub open spec fn all_sizes_within(sizes: Seq<nat>, low: int, high: int) -> bool {
    forall|size: nat| #[trigger] sizes.contains(size) ==> low <= size <= high
}

/// Digits without a separator between them, and groups of one digit each, are always
/// card-shaped, the latter behind one separator throughout.
pub proof fn law_plain_and_spread_digits_are_card_shaped(g: GroupingView)
    ensures
        g.sizes.len() == 0 || g.sizes.len() == 1 ==> card_shaped(g),
        !g.mixed_sep && all_sizes_within(g.sizes, 1, 1) ==> card_shaped(g),
{
    if all_sizes_within(g.sizes, 1, 1) {
        assert forall|i: int| 0 <= i < g.sizes.len() implies #[trigger] g.sizes[i] == 1 by {
            assert(g.sizes.contains(g.sizes[i]));
        }
    }
}

/// Two or more groups with different separators between them are never card-shaped.
pub proof fn law_mixed_separators_are_not_card_shaped(g: GroupingView)
    requires
        g.mixed_sep,
        g.sizes.len() >= 2,
    ensures
        !card_shaped(g),
{
}

/// With dashes, and with dots, two or more groups are card-shaped if and only if all of them have
/// three to six digits, or all have one.
pub proof fn law_dashed_and_dotted_groups(g: GroupingView)
    requires
        !g.mixed_sep,
        g.sizes.len() >= 2,
    ensures
        card_shaped(behind(g, 0x2d)) <==> all_sizes_within(g.sizes, 3, 6) || all_sizes_within(
            g.sizes,
            1,
            1,
        ),
        card_shaped(behind(g, 0x2e)) <==> card_shaped(behind(g, 0x2d)),
{
    lemma_sizes_within(g.sizes, 3, 6);
    lemma_sizes_within(g.sizes, 1, 1);
    lemma_dash_or_dot(behind(g, 0x2d));
    lemma_dash_or_dot(behind(g, 0x2e));
}

/// A property of all sizes, by index.
proof fn lemma_sizes_within(sizes: Seq<nat>, low: int, high: int)
    ensures
        all_sizes_within(sizes, low, high) <==> forall|i: int|
            0 <= i < sizes.len() ==> low <= #[trigger] sizes[i] <= high,
{
    if all_sizes_within(sizes, low, high) {
        assert forall|i: int| 0 <= i < sizes.len() implies low <= #[trigger] sizes[i] <= high by {
            assert(sizes.contains(sizes[i]));
        }
    }
}

proof fn lemma_dash_or_dot(g: GroupingView)
    requires
        !g.mixed_sep,
        g.sizes.len() >= 2,
        g.sep == 0x2d || g.sep == 0x2e,
    ensures
        card_shaped(g) <==> all_sizes_within(g.sizes, 3, 6) || all_sizes_within(g.sizes, 1, 1),
{
    lemma_sizes_within(g.sizes, 3, 6);
    lemma_sizes_within(g.sizes, 1, 1);
    if all_sizes_within(g.sizes, 1, 1) {
        assert forall|i: int| 0 <= i < g.sizes.len() implies #[trigger] g.sizes[i] == 1 by {
            assert(1 <= g.sizes[i] <= 1);
        }
    }
    if forall|i: int| 0 <= i < g.sizes.len() ==> #[trigger] g.sizes[i] == 1 {
        assert forall|i: int| 0 <= i < g.sizes.len() implies 1 <= #[trigger] g.sizes[i] <= 1 by {
            assert(g.sizes[i] == 1);
        }
    }
}

/// With spaces only three groupings of larger groups are card-shaped: four groups of four digits,
/// and a group of four, one of six, and one of five or of four.
pub proof fn law_spaced_groups(g: GroupingView)
    requires
        !g.mixed_sep,
        g.sizes.len() >= 2,
        !all_sizes_within(g.sizes, 1, 1),
    ensures
        card_shaped(behind(g, 0x20)) <==> {
            ||| g.sizes.len() == 4 && all_sizes_within(g.sizes, 4, 4)
            ||| g.sizes.len() == 3 && g.sizes[0] == 4 && g.sizes[1] == 6 && 4 <= g.sizes[2] <= 5
        },
{
    let sizes = g.sizes;
    let other = choose|size: nat| #[trigger] sizes.contains(size) && size != 1;
    let i = choose|i: int| 0 <= i < sizes.len() && sizes[i] == other;
    assert(behind(g, 0x20).sizes[i] != 1);
    if sizes == seq![4nat, 4, 4, 4] {
        lemma_sizes_within(sizes, 4, 4);
    }
    if sizes.len() == 4 && all_sizes_within(sizes, 4, 4) {
        assert(sizes.contains(sizes[0]) && sizes.contains(sizes[1]) && sizes.contains(sizes[2])
            && sizes.contains(sizes[3]));
        assert(sizes =~= seq![4nat, 4, 4, 4]);
    }
    if sizes.len() == 3 && sizes[0] == 4 && sizes[1] == 6 && 4 <= sizes[2] <= 5 {
        assert(sizes =~= seq![4nat, 6, 5] || sizes =~= seq![4nat, 6, 4]);
    }
}

/// Dashes and dots are looser than spaces: what is card-shaped with a space is so with them.
pub proof fn law_spaces_are_the_strictest(g: GroupingView)
    requires
        card_shaped(behind(g, 0x20)),
    ensures
        card_shaped(behind(g, 0x2d)),
        card_shaped(behind(g, 0x2e)),
{
    let sizes = g.sizes;
    if sizes.len() >= 2 && !g.mixed_sep {
        law_dashed_and_dotted_groups(g);
        if !all_sizes_within(sizes, 1, 1) {
            law_spaced_groups(g);
            lemma_sizes_within(sizes, 3, 6);
            lemma_sizes_within(sizes, 4, 4);
            assert forall|i: int| 0 <= i < sizes.len() implies 3 <= #[trigger] sizes[i] <= 6 by {
                if sizes.len() == 3 {
                    assert(i == 0 || i == 1 || i == 2);
                }
            }
        }
    }
}

/// Behind any other byte two or more groups are card-shaped only if each has one digit.
pub proof fn law_other_bytes_do_not_separate(g: GroupingView)
    requires
        g.sizes.len() >= 2,
        g.sep != 0x20 && g.sep != 0x2d && g.sep != 0x2e,
        card_shaped(g),
    ensures
        all_sizes_within(g.sizes, 1, 1),
{
}

/// No separator stands in a text.
pub open spec fn unseparated(text: Seq<u8>) -> bool {
    !text.contains(0x20) && !text.contains(0x2d) && !text.contains(0x2e)
}

/// A text without separators is one group.
pub proof fn law_unseparated_text_is_one_group(text: Seq<u8>)
    requires
        unseparated(text),
    ensures
        group_sizes(text) == seq![text.len()],
        separators(text) == Seq::<u8>::empty(),
        grouping_of(text) == (GroupingView { sizes: seq![text.len()], sep: 0, mixed_sep: false }),
    decreases text.len(),
{
    if text.len() > 0 {
        let fewer = text.drop_last();
        assert forall|b: u8| fewer.contains(b) implies text.contains(b) by {
            let i = choose|i: int| 0 <= i < fewer.len() && fewer[i] == b;
            assert(text[i] == b);
        }
        assert(text.contains(text.last()));
        law_unseparated_text_is_one_group(fewer);
        assert(group_sizes(text) =~= seq![text.len()]);
    } else {
        assert(group_sizes(text) =~= seq![text.len()]);
    }
}

/// A separator ends a group: the groups of a text are the one before its first separator and
/// those of the rest.
pub proof fn law_separator_ends_a_group(run: Seq<u8>, sep: u8, rest: Seq<u8>)
    requires
        unseparated(run),
        sep == 0x20 || sep == 0x2d || sep == 0x2e,
    ensures
        group_sizes(run + seq![sep] + rest) == seq![run.len()] + group_sizes(rest),
        separators(run + seq![sep] + rest) == seq![sep] + separators(rest),
        grouping_of(run + seq![sep] + rest).sizes == seq![run.len()] + group_sizes(rest),
        grouping_of(run + seq![sep] + rest).sep == sep,
        grouping_of(run + seq![sep] + rest).mixed_sep <==> exists|i: int|
            0 <= i < separators(rest).len() && #[trigger] separators(rest)[i] != sep,
    decreases rest.len(),
{
    let text = run + seq![sep] + rest;
    lemma_some_group(rest);
    if rest.len() == 0 {
        law_unseparated_text_is_one_group(run);
        assert(text.drop_last() =~= run);
        assert(group_sizes(text) =~= seq![run.len()] + group_sizes(rest));
        assert(separators(text) =~= seq![sep] + separators(rest));
    } else {
        let fewer = rest.drop_last();
        lemma_some_group(fewer);
        law_separator_ends_a_group(run, sep, fewer);
        assert(text.drop_last() =~= run + seq![sep] + fewer);
        assert(group_sizes(text) =~= seq![run.len()] + group_sizes(rest));
        assert(separators(text) =~= seq![sep] + separators(rest));
    }
    let seps = separators(text);
    assert(seps[0] == sep);
    if grouping_of(text).mixed_sep {
        let i = choose|i: int| 0 <= i < seps.len() && #[trigger] seps[i] != seps[0];
        assert(separators(rest)[i - 1] != sep);
    }
    if exists|i: int| 0 <= i < separators(rest).len() && #[trigger] separators(rest)[i] != sep {
        let i = choose|i: int|
            0 <= i < separators(rest).len() && #[trigger] separators(rest)[i] != sep;
        assert(seps[i + 1] != seps[0]);
    }
}

proof fn lemma_some_group(text: Seq<u8>)
    ensures
        group_sizes(text).len() > 0,
    decreases text.len(),
{
    if text.len() > 0 {
        lemma_some_group(text.drop_last());
    }
}

} // verus!
