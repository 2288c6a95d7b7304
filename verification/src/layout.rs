//! Line layout analysis: group an unordered collection of word boxes into
//! reading-order lines.
//!
//! Words are processed by increasing vertical position; a word joins the
//! line under construction when its top edge does not pass below the
//! deepest bottom edge seen in that line, and starts a new line otherwise.
//! Within a line, words are ordered left to right; lines are ordered top to
//! bottom.

use vstd::prelude::*;

use vstd::multiset::Multiset;
use vstd::seq_lib::lemma_multiset_commutative;

use crate::geom::RotatedRect;

verus! {

broadcast use vstd::seq_lib::group_to_multiset_ensures, vstd::multiset::group_multiset_axioms;

/// Vertical-first processing order: by top edge, then by horizontal center.
pub open spec fn vkey_le(a: RotatedRect, b: RotatedRect) -> bool {
    a.top2() < b.top2() || (a.top2() == b.top2() && a.cx2 <= b.cx2)
}

/// Whether `s` is ordered by `vkey_le`.
pub open spec fn vkey_sorted(s: Seq<RotatedRect>) -> bool {
    forall|k1: int, k2: int|
        #![trigger s[k1], s[k2]]
        0 <= k1 < k2 < s.len() ==> vkey_le(s[k1], s[k2])
}

/// Whether `s` is ordered left to right by horizontal center.
pub open spec fn x_sorted(s: Seq<RotatedRect>) -> bool {
    forall|k1: int, k2: int| #![trigger s[k1], s[k2]] 0 <= k1 < k2 < s.len() ==> s[k1].cx2 <= s[k2].cx2
}

/// Whether every word of `s` after the first hangs on an earlier one: its
/// top edge does not pass below the bottom edge of some earlier word. A
/// sequence with this property forms one vertical band.
pub open spec fn chained_down(s: Seq<RotatedRect>) -> bool {
    forall|k: int|
        1 <= k < s.len()
            ==> exists|k2: int| 0 <= k2 < k && (#[trigger] s[k]).top2() <= s[k2].bottom2()
}

/// Whether the members of `line`, rearranged into the order the analyzer
/// processed them in, form one vertical band.
pub open spec fn line_has_formation(line: Seq<RotatedRect>) -> bool {
    exists|form: Seq<RotatedRect>|
        {
            &&& #[trigger] form.to_multiset() == line.to_multiset()
            &&& vkey_sorted(form)
            &&& chained_down(form)
        }
}

/// Whether every word of `b` begins strictly below every word of `a`.
pub open spec fn lines_separated(a: Seq<RotatedRect>, b: Seq<RotatedRect>) -> bool {
    forall|k1: int, k2: int|
        #![trigger a[k1], b[k2]]
        0 <= k1 < a.len() && 0 <= k2 < b.len() ==> b[k2].top2() > a[k1].bottom2()
}

/// The member sequences of a collection of lines.
pub open spec fn line_views(lines: Seq<Vec<RotatedRect>>) -> Seq<Seq<RotatedRect>> {
    lines.map_values(|l: Vec<RotatedRect>| l@)
}

/// All words of all of `lines`, in order.
pub open spec fn lines_flat(lines: Seq<Vec<RotatedRect>>) -> Seq<RotatedRect> {
    line_views(lines).flatten()
}

/// Proof that inserting anywhere in a sequence inserts into its multiset.
proof fn lemma_insert_to_multiset(s: Seq<RotatedRect>, i: int, x: RotatedRect)
    requires
        0 <= i <= s.len(),
    ensures
        s.insert(i, x).to_multiset() =~= s.to_multiset().insert(x),
{
    broadcast use vstd::seq_lib::group_to_multiset_ensures;

    let a = s.subrange(0, i);
    let b = s.subrange(i, s.len() as int);
    assert(s =~= a + b);
    assert(s.insert(i, x) =~= a + (seq![x] + b));
    lemma_multiset_commutative(a, b);
    lemma_multiset_commutative(a, seq![x] + b);
    lemma_multiset_commutative(seq![x], b);
    assert(seq![x] =~= Seq::<RotatedRect>::empty().push(x));
    assert(Seq::<RotatedRect>::empty().push(x).to_multiset() =~= Seq::<
        RotatedRect,
    >::empty().to_multiset().insert(x));
    assert(Seq::<RotatedRect>::empty().to_multiset() =~= Multiset::<RotatedRect>::empty());
}

/// Proof that a member of `a` is a member of `b` when the two sequences
/// hold the same multiset of values.
proof fn lemma_member_via_multiset(a: Seq<RotatedRect>, b: Seq<RotatedRect>, k: int)
    requires
        a.to_multiset() == b.to_multiset(),
        0 <= k < a.len(),
    ensures
        exists|j: int| 0 <= j < b.len() && b[j] == a[k],
{
    broadcast use vstd::seq_lib::group_to_multiset_ensures;

    assert(a.contains(a[k]));
    assert(a.to_multiset().count(a[k]) > 0);
    assert(b.contains(a[k]));
    let j = choose|j: int| 0 <= j < b.len() && b[j] == a[k];
    assert(b[j] == a[k]);
}

/// The top edge of the axis-aligned footprint, in doubled coordinates.
fn top2_of(r: &RotatedRect) -> (t: i64)
    requires
        r.wf(),
    ensures
        t == r.top2(),
{
    r.cy2 - r.height
}

/// The bottom edge of the axis-aligned footprint, in doubled coordinates.
fn bottom2_of(r: &RotatedRect) -> (b: i64)
    requires
        r.wf(),
    ensures
        b == r.bottom2(),
{
    r.cy2 + r.height
}

/// Whether `a` comes no later than `b` in processing order.
fn vkey_le_exec(a: &RotatedRect, b: &RotatedRect) -> (r: bool)
    requires
        a.wf(),
        b.wf(),
    ensures
        r == vkey_le(*a, *b),
{
    let at = top2_of(a);
    let bt = top2_of(b);
    at < bt || (at == bt && a.cx2 <= b.cx2)
}

/// Insert `w` into the `vkey_le`-ordered `v`, keeping the order.
fn insert_by_vkey(v: &mut Vec<RotatedRect>, w: RotatedRect)
    requires
        vkey_sorted(old(v)@),
        forall|k: int| 0 <= k < old(v)@.len() ==> (#[trigger] old(v)@[k]).wf(),
        w.wf(),
    ensures
        vkey_sorted(final(v)@),
        forall|k: int| 0 <= k < final(v)@.len() ==> (#[trigger] final(v)@[k]).wf(),
        final(v)@.to_multiset() == old(v)@.to_multiset().insert(w),
        final(v)@.len() == old(v)@.len() + 1,
{
    let mut pos: usize = 0;
    while pos < v.len() && vkey_le_exec(&v[pos], &w)
        invariant
            pos <= v@.len(),
            vkey_sorted(v@),
            forall|k: int| 0 <= k < v@.len() ==> (#[trigger] v@[k]).wf(),
            w.wf(),
            v@ == old(v)@,
            forall|k: int| 0 <= k < pos ==> vkey_le(#[trigger] v@[k], w),
        decreases v@.len() - pos,
    {
        pos += 1;
    }
    let ghost prev = v@;
    let ghost at = pos as int;
    v.insert(pos, w);
    proof {
        lemma_insert_to_multiset(prev, at, w);
        assert forall|k1: int, k2: int|
            #![trigger v@[k1], v@[k2]]
            0 <= k1 < k2 < v@.len() implies vkey_le(v@[k1], v@[k2]) by {
            if k1 < at && k2 < at {
                assert(v@[k1] == prev[k1] && v@[k2] == prev[k2]);
            } else if k1 < at && k2 == at {
                assert(v@[k1] == prev[k1]);
            } else if k1 < at && k2 > at {
                assert(v@[k1] == prev[k1] && v@[k2] == prev[k2 - 1]);
                if at < prev.len() {
                    assert(!vkey_le(prev[at], w));
                }
                if k1 < at - 1 || at < k2 - 1 {
                }
            } else if k1 == at && k2 > at {
                assert(v@[k2] == prev[k2 - 1]);
                assert(!vkey_le(prev[at], w));
                assert(vkey_le(prev[at], prev[k2 - 1]) || at == k2 - 1);
            } else {
                assert(v@[k1] == prev[k1 - 1] && v@[k2] == prev[k2 - 1]);
            }
        }
    }
}

/// Insert `w` into the left-to-right ordered `v`, keeping the order.
fn insert_by_x(v: &mut Vec<RotatedRect>, w: RotatedRect)
    requires
        x_sorted(old(v)@),
        forall|k: int| 0 <= k < old(v)@.len() ==> (#[trigger] old(v)@[k]).wf(),
        w.wf(),
    ensures
        x_sorted(final(v)@),
        forall|k: int| 0 <= k < final(v)@.len() ==> (#[trigger] final(v)@[k]).wf(),
        final(v)@.to_multiset() == old(v)@.to_multiset().insert(w),
        final(v)@.len() == old(v)@.len() + 1,
{
    let mut pos: usize = 0;
    while pos < v.len() && v[pos].cx2 <= w.cx2
        invariant
            pos <= v@.len(),
            x_sorted(v@),
            forall|k: int| 0 <= k < v@.len() ==> (#[trigger] v@[k]).wf(),
            w.wf(),
            v@ == old(v)@,
            forall|k: int| 0 <= k < pos ==> (#[trigger] v@[k]).cx2 <= w.cx2,
        decreases v@.len() - pos,
    {
        pos += 1;
    }
    let ghost prev = v@;
    let ghost at = pos as int;
    v.insert(pos, w);
    proof {
        lemma_insert_to_multiset(prev, at, w);
        assert forall|k1: int, k2: int|
            #![trigger v@[k1], v@[k2]]
            0 <= k1 < k2 < v@.len() implies v@[k1].cx2 <= v@[k2].cx2 by {
            if k1 < at && k2 < at {
                assert(v@[k1] == prev[k1] && v@[k2] == prev[k2]);
            } else if k1 < at && k2 == at {
                assert(v@[k1] == prev[k1]);
            } else if k1 < at && k2 > at {
                assert(v@[k1] == prev[k1] && v@[k2] == prev[k2 - 1]);
                if at < prev.len() {
                    assert(prev[at].cx2 > w.cx2);
                }
            } else if k1 == at && k2 > at {
                assert(v@[k2] == prev[k2 - 1]);
                assert(prev[at].cx2 > w.cx2);
                assert(prev[at].cx2 <= prev[k2 - 1].cx2 || at == k2 - 1);
            } else {
                assert(v@[k1] == prev[k1 - 1] && v@[k2] == prev[k2 - 1]);
            }
        }
    }
}

/// Arrange the words into processing order: by top edge, then by
/// horizontal center. The result holds exactly the input words.
fn sort_by_vkey(words: &Vec<RotatedRect>) -> (sorted: Vec<RotatedRect>)
    requires
        forall|k: int| 0 <= k < words@.len() ==> (#[trigger] words@[k]).wf(),
    ensures
        vkey_sorted(sorted@),
        forall|k: int| 0 <= k < sorted@.len() ==> (#[trigger] sorted@[k]).wf(),
        sorted@.to_multiset() == words@.to_multiset(),
        sorted@.len() == words@.len(),
{
    broadcast use vstd::seq_lib::group_to_multiset_ensures;

    let mut sorted: Vec<RotatedRect> = Vec::new();
    let mut i: usize = 0;
    proof {
        assert(words@.take(0) =~= Seq::<RotatedRect>::empty());
        assert(sorted@.to_multiset() =~= words@.take(0).to_multiset());
    }
    while i < words.len()
        invariant
            i <= words@.len(),
            forall|k: int| 0 <= k < words@.len() ==> (#[trigger] words@[k]).wf(),
            vkey_sorted(sorted@),
            forall|k: int| 0 <= k < sorted@.len() ==> (#[trigger] sorted@[k]).wf(),
            sorted@.to_multiset() == words@.take(i as int).to_multiset(),
            sorted@.len() == i,
        decreases words@.len() - i,
    {
        let w = words[i];
        insert_by_vkey(&mut sorted, w);
        proof {
            assert(words@.take(i + 1) =~= words@.take(i as int).push(w));
            assert(words@.take(i as int).push(w).to_multiset() =~= words@.take(
                i as int,
            ).to_multiset().insert(w));
        }
        i += 1;
    }
    proof {
        assert(words@.take(words@.len() as int) =~= words@);
    }
    sorted
}

/// What layout analysis returns: a partition of the input words into
/// nonempty left-to-right ordered lines, well-formed throughout,
/// consecutive lines strictly separated, each line one vertical band in
/// processing order, and lines exist exactly when words do.
pub open spec fn layout_result_ok(words: Seq<RotatedRect>, lines: Seq<Vec<RotatedRect>>) -> bool {
    &&& lines_flat(lines).to_multiset() == words.to_multiset()
    &&& forall|l: int| 0 <= l < lines.len() ==> (#[trigger] lines[l])@.len() > 0
    &&& forall|l: int| 0 <= l < lines.len() ==> x_sorted((#[trigger] lines[l])@)
    &&& forall|l: int, k: int|
        #![trigger lines[l]@[k]]
        0 <= l < lines.len() && 0 <= k < lines[l]@.len() ==> lines[l]@[k].wf()
    &&& forall|l: int|
        0 <= l && l + 1 < lines.len() ==> lines_separated((#[trigger] lines[l])@, lines[l + 1]@)
    &&& forall|l: int| 0 <= l < lines.len() ==> line_has_formation((#[trigger] lines[l])@)
    &&& (words.len() == 0 ==> lines.len() == 0)
    &&& (words.len() > 0 ==> lines.len() > 0)
}

/// Group an unordered collection of word boxes into reading-order lines.
///
/// The result is a partition of the input words. Every line is nonempty and
/// ordered left to right; consecutive lines are strictly separated, every
/// word of a line beginning below every word of the line before it; and the
/// members of each line, taken in processing order, form one vertical band
/// (each hangs on an earlier one). No words yield no lines; a single word
/// yields a single one-word line.
pub fn find_text_lines(words: &Vec<RotatedRect>) -> (lines: Vec<Vec<RotatedRect>>)
    requires
        forall|k: int| 0 <= k < words@.len() ==> (#[trigger] words@[k]).wf(),
    ensures
        layout_result_ok(words@, lines@),
{
    broadcast use vstd::seq_lib::group_to_multiset_ensures;
    broadcast use Seq::lemma_flatten_push;

    let sorted = sort_by_vkey(words);
    let n = sorted.len();
    let mut lines: Vec<Vec<RotatedRect>> = Vec::new();
    let mut cur: Vec<RotatedRect> = Vec::new();
    let ghost mut form: Seq<RotatedRect> = Seq::empty();
    let mut cur_max_bottom: i64 = 0;
    let mut i: usize = 0;
    proof {
        assert(sorted@.take(0) =~= Seq::<RotatedRect>::empty());
        assert(line_views(lines@) =~= Seq::<Seq<RotatedRect>>::empty());
        assert(lines_flat(lines@) =~= Seq::<RotatedRect>::empty());
        assert(lines_flat(lines@).to_multiset().add(cur@.to_multiset()) =~= sorted@.take(
            0,
        ).to_multiset());
    }
    while i < n
        invariant
            n == sorted@.len(),
            i <= n,
            vkey_sorted(sorted@),
            forall|k: int| 0 <= k < sorted@.len() ==> (#[trigger] sorted@[k]).wf(),
            sorted@.to_multiset() == words@.to_multiset(),
            sorted@.len() == words@.len(),
            // Accounting: closed lines plus the open line hold exactly the
            // processed prefix.
            lines_flat(lines@).to_multiset().add(cur@.to_multiset()) == sorted@.take(
                i as int,
            ).to_multiset(),
            // The open line.
            x_sorted(cur@),
            forall|k: int| 0 <= k < cur@.len() ==> (#[trigger] cur@[k]).wf(),
            form.to_multiset() == cur@.to_multiset(),
            form.len() == cur@.len(),
            vkey_sorted(form),
            chained_down(form),
            cur@.len() > 0 ==> exists|k: int|
                0 <= k < cur@.len() && (#[trigger] cur@[k]).bottom2() == cur_max_bottom,
            forall|k: int| 0 <= k < cur@.len() ==> (#[trigger] cur@[k]).bottom2() <= cur_max_bottom,
            forall|k1: int, k2: int|
                #![trigger cur@[k1], sorted@[k2]]
                0 <= k1 < cur@.len() && i <= k2 < sorted@.len() ==> vkey_le(cur@[k1], sorted@[k2]),
            i > 0 && cur@.len() == 0 ==> false,
            i == 0 ==> cur@.len() == 0 && lines@.len() == 0,
            // Closed lines.
            forall|l: int| 0 <= l < lines@.len() ==> (#[trigger] lines@[l])@.len() > 0,
            forall|l: int| 0 <= l < lines@.len() ==> x_sorted((#[trigger] lines@[l])@),
            forall|l: int, k: int|
                #![trigger lines@[l]@[k]]
                0 <= l < lines@.len() && 0 <= k < lines@[l]@.len() ==> lines@[l]@[k].wf(),
            forall|l: int|
                0 <= l && l + 1 < lines@.len() ==> lines_separated(
                    (#[trigger] lines@[l])@,
                    lines@[l + 1]@,
                ),
            forall|l: int| 0 <= l < lines@.len() ==> line_has_formation((#[trigger] lines@[l])@),
            // The last closed line lies strictly above everything to come.
            lines@.len() > 0 ==> forall|k1: int, k2: int|
                #![trigger lines@[lines@.len() - 1]@[k1], sorted@[k2]]
                0 <= k1 < lines@[lines@.len() - 1]@.len() && i <= k2 < sorted@.len()
                    ==> sorted@[k2].top2() > lines@[lines@.len() - 1]@[k1].bottom2(),
            lines@.len() > 0 ==> lines_separated(lines@[lines@.len() - 1]@, cur@),
        decreases n - i,
    {
        let w = sorted[i];
        let wt = top2_of(&w);
        let wb = bottom2_of(&w);
        if cur.len() > 0 && wt > cur_max_bottom {
            // Close the current line: `w` begins strictly below it.
            let ghost closed = cur@;
            let ghost lines0 = lines@;
            proof {
                assert(line_has_formation(closed));
                assert forall|k1: int, k2: int|
                    #![trigger closed[k1], sorted@[k2]]
                    0 <= k1 < closed.len() && i <= k2 < sorted@.len() implies sorted@[k2].top2()
                    > closed[k1].bottom2() by {
                    assert(vkey_le(closed[k1], sorted@[k2]) || k2 == i);
                    assert(vkey_le(sorted@[i as int], sorted@[k2]) || k2 == i);
                    assert(sorted@[k2].top2() >= w.top2());
                    assert(closed[k1].bottom2() <= cur_max_bottom);
                }
            }
            lines.push(cur);
            cur = Vec::new();
            proof {
                form = Seq::empty();
                assert(line_views(lines@) =~= line_views(lines0).push(closed));
                line_views(lines0).lemma_flatten_push(closed);
                assert(lines_flat(lines@) =~= lines_flat(lines0) + closed);
                lemma_multiset_commutative(lines_flat(lines0), closed);
                assert(Seq::<RotatedRect>::empty().to_multiset() =~= Multiset::<
                    RotatedRect,
                >::empty());
                assert(lines_flat(lines@).to_multiset().add(cur@.to_multiset())
                    =~= sorted@.take(i as int).to_multiset());
                assert(lines@[lines@.len() - 1]@ == closed);
            }
            cur_max_bottom = wb;
            cur.push(w);
            proof {
                form = form.push(w);
                assert(form =~= Seq::<RotatedRect>::empty().push(w));
                assert(cur@ =~= Seq::<RotatedRect>::empty().push(w));
                assert(form.to_multiset() =~= cur@.to_multiset());
                assert(cur@.len() == 1);
                assert(cur@[0] == w);
                assert(cur@[0].bottom2() == cur_max_bottom);
                assert(sorted@.take(i + 1) =~= sorted@.take(i as int).push(w));
                assert(sorted@.take(i as int).push(w).to_multiset() =~= sorted@.take(
                    i as int,
                ).to_multiset().insert(w));
                assert(cur@.to_multiset() =~= Seq::<RotatedRect>::empty().to_multiset().insert(w));
                assert(lines_flat(lines@).to_multiset().add(cur@.to_multiset())
                    =~= sorted@.take(i + 1).to_multiset());
            }
        } else {
            // `w` joins the current line (or begins the very first one).
            let ghost cur0 = cur@;
            let ghost had_any = cur.len() > 0;
            let old_max: i64 = cur_max_bottom;
            if cur.len() == 0 || wb > cur_max_bottom {
                cur_max_bottom = wb;
            }
            insert_by_x(&mut cur, w);
            proof {
                // The new word hangs on the member that set the old depth.
                if had_any {
                    assert(w.top2() <= old_max);
                    let kb = choose|k: int|
                        0 <= k < cur0.len() && (#[trigger] cur0[k]).bottom2() == old_max;
                    lemma_member_via_multiset(cur0, form, kb);
                    let jb = choose|j: int| 0 <= j < form.len() && form[j] == cur0[kb];
                    assert(form[jb].bottom2() == old_max);
                    assert forall|k1: int| 0 <= k1 < form.len() implies vkey_le(
                        #[trigger] form[k1],
                        w,
                    ) by {
                        lemma_member_via_multiset(form, cur0, k1);
                        let j = choose|j: int| 0 <= j < cur0.len() && cur0[j] == form[k1];
                        assert(vkey_le(cur0[j], sorted@[i as int]));
                    }
                    let ghost form0 = form;
                    form = form.push(w);
                    assert(form0.push(w).to_multiset() =~= form0.to_multiset().insert(w));
                    assert(form.to_multiset() =~= cur@.to_multiset());
                    assert(vkey_sorted(form));
                    assert forall|k: int| 1 <= k < form.len() implies exists|k2: int|
                        0 <= k2 < k && (#[trigger] form[k]).top2() <= form[k2].bottom2() by {
                        if k < form0.len() {
                            assert(form[k] == form0[k]);
                            let k2 = choose|k2: int|
                                0 <= k2 < k && (#[trigger] form0[k]).top2() <= form0[k2].bottom2();
                            assert(form[k2] == form0[k2]);
                            assert(form[k].top2() <= form[k2].bottom2());
                        } else {
                            assert(form[jb] == form0[jb]);
                            assert(form[k].top2() <= form[jb].bottom2());
                        }
                    }
                } else {
                    form = form.push(w);
                    assert(form =~= Seq::<RotatedRect>::empty().push(w));
                    assert(Seq::<RotatedRect>::empty().push(w).to_multiset() =~= Seq::<
                        RotatedRect,
                    >::empty().to_multiset().insert(w));
                    assert(cur0 =~= Seq::<RotatedRect>::empty());
                    assert(form.to_multiset() =~= cur@.to_multiset());
                }
                assert(sorted@.take(i + 1) =~= sorted@.take(i as int).push(w));
                assert(sorted@.take(i as int).push(w).to_multiset() =~= sorted@.take(
                    i as int,
                ).to_multiset().insert(w));
                assert(lines_flat(lines@).to_multiset().add(cur@.to_multiset())
                    =~= sorted@.take(i + 1).to_multiset());
                // Every member of the grown line is the new word or an old
                // member; the depth bound and ordering facts follow.
                let newmax: i64 = if !had_any || w.bottom2() > old_max { w.bottom2() as i64 } else { old_max };
                assert forall|k: int| 0 <= k < cur@.len() implies (#[trigger] cur@[k]).bottom2()
                    <= newmax by {
                    lemma_member_via_multiset_ins(cur0, cur@, k, w);
                }
                assert(cur@.to_multiset().count(w) > 0);
                assert(cur@.contains(w));
                if had_any && w.bottom2() <= old_max {
                    let kb = choose|k: int|
                        0 <= k < cur0.len() && (#[trigger] cur0[k]).bottom2() == old_max;
                    assert(cur0.contains(cur0[kb]));
                    assert(cur0.to_multiset().count(cur0[kb]) > 0);
                    assert(cur@.to_multiset().count(cur0[kb]) > 0);
                    assert(cur@.contains(cur0[kb]));
                }
                assert forall|k1: int, k2: int|
                    #![trigger cur@[k1], sorted@[k2]]
                    0 <= k1 < cur@.len() && i + 1 <= k2 < sorted@.len() implies vkey_le(
                    cur@[k1],
                    sorted@[k2],
                ) by {
                    lemma_member_via_multiset_ins(cur0, cur@, k1, w);
                    if cur@[k1] == w {
                        assert(vkey_le(sorted@[i as int], sorted@[k2]));
                    }
                }
                // Separation from the last closed line carries to the new word.
                if lines@.len() > 0 {
                    assert forall|k1: int, k2: int|
                        #![trigger lines@[lines@.len() - 1]@[k1], cur@[k2]]
                        0 <= k1 < lines@[lines@.len() - 1]@.len() && 0 <= k2 < cur@.len()
                        implies cur@[k2].top2() > lines@[lines@.len() - 1]@[k1].bottom2() by {
                        lemma_member_via_multiset_ins(cur0, cur@, k2, w);
                    }
                }
            }
        }
        i += 1;
    }
    if cur.len() > 0 {
        let ghost closed = cur@;
        let ghost lines0 = lines@;
        proof {
            assert(line_has_formation(closed));
        }
        lines.push(cur);
        proof {
            assert(line_views(lines@) =~= line_views(lines0).push(closed));
            line_views(lines0).lemma_flatten_push(closed);
            assert(lines_flat(lines@) =~= lines_flat(lines0) + closed);
            lemma_multiset_commutative(lines_flat(lines0), closed);
            assert(Seq::<RotatedRect>::empty().to_multiset() =~= Multiset::<
                RotatedRect,
            >::empty());
            assert(lines_flat(lines@).to_multiset() =~= sorted@.take(n as int).to_multiset());
        }
    }
    proof {
        assert(sorted@.take(n as int) =~= sorted@);
        if cur@.len() == 0 {
            assert(Seq::<RotatedRect>::empty().to_multiset() =~= Multiset::<RotatedRect>::empty());
            assert(lines_flat(lines@).to_multiset() =~= sorted@.to_multiset());
        }
    }
    lines
}

/// Proof that an element of an inner sequence occurs in the flattening.
proof fn lemma_flatten_member(ss: Seq<Seq<RotatedRect>>, l: int, k: int)
    requires
        0 <= l < ss.len(),
        0 <= k < ss[l].len(),
    ensures
        ss.flatten().contains(ss[l][k]),
    decreases ss.len(),
{
    let first = ss.first();
    let rest = ss.drop_first();
    assert(ss.flatten() == first + rest.flatten());
    if l == 0 {
        assert((first + rest.flatten())[k] == ss[l][k]);
    } else {
        lemma_flatten_member(rest, l - 1, k);
        let j = choose|j: int|
            0 <= j < rest.flatten().len() && rest.flatten()[j] == ss[l][k];
        assert((first + rest.flatten())[first.len() + j] == ss[l][k]);
    }
}

/// Proof that every element of the flattening comes from an inner sequence.
proof fn lemma_flatten_member_rev(ss: Seq<Seq<RotatedRect>>, x: RotatedRect)
    requires
        ss.flatten().contains(x),
    ensures
        exists|l: int, k: int| 0 <= l < ss.len() && 0 <= k < ss[l].len() && ss[l][k] == x,
    decreases ss.len(),
{
    assert(ss.len() > 0);
    let first = ss.first();
    let rest = ss.drop_first();
    assert(ss.flatten() == first + rest.flatten());
    let i = choose|i: int| 0 <= i < ss.flatten().len() && ss.flatten()[i] == x;
    if i < first.len() {
        assert(ss[0][i] == x);
    } else {
        assert(rest.flatten()[i - first.len()] == x);
        lemma_flatten_member_rev(rest, x);
        let (l, k) = choose|l: int, k: int|
            0 <= l < rest.len() && 0 <= k < rest[l].len() && rest[l][k] == x;
        assert(ss[l + 1][k] == x);
    }
}

/// Proof that a position whose top edge reaches `t` has a first such
/// position.
proof fn lemma_first_reaching_top(s: Seq<RotatedRect>, t: int, k0: int)
    requires
        0 <= k0 < s.len(),
        s[k0].top2() >= t,
    ensures
        exists|k: int|
            #![trigger s[k]]
            0 <= k < s.len() && s[k].top2() >= t && forall|k2: int|
                0 <= k2 < k ==> (#[trigger] s[k2]).top2() < t,
    decreases k0,
{
    if exists|k2: int| 0 <= k2 < k0 && (#[trigger] s[k2]).top2() >= t {
        let k1 = choose|k2: int| 0 <= k2 < k0 && (#[trigger] s[k2]).top2() >= t;
        lemma_first_reaching_top(s, t, k1);
    } else {
        assert(s[k0].top2() >= t && forall|k2: int|
            0 <= k2 < k0 ==> (#[trigger] s[k2]).top2() < t);
    }
}

/// Whether the vertical extent of `w` lies within the band `t ..= b`.
pub open spec fn in_band(w: RotatedRect, t: int, b: int) -> bool {
    t <= w.top2() && w.top2() <= w.bottom2() && w.bottom2() <= b
}

/// Whether every word of `ws` lies in one of the two given vertical bands.
pub open spec fn words_in_two_bands(
    ws: Seq<RotatedRect>,
    t1: int,
    b1: int,
    t2: int,
    b2: int,
) -> bool {
    forall|i: int|
        0 <= i < ws.len() ==> (in_band(#[trigger] ws[i], t1, b1) || in_band(ws[i], t2, b2))
}

/// Whether any two words of `ws` lying in the band `t ..= b` overlap
/// vertically, so that the band's words chain into one line.
pub open spec fn band_words_overlap(ws: Seq<RotatedRect>, t: int, b: int) -> bool {
    forall|i: int, j: int|
        #![trigger ws[i], ws[j]]
        0 <= i < ws.len() && 0 <= j < ws.len() && in_band(ws[i], t, b) && in_band(ws[j], t, b)
            ==> ws[i].top2() <= ws[j].bottom2()
}

/// Words arranged in two clearly separated horizontal bands are laid out as
/// exactly two lines, the upper band's line first, each line holding only
/// its band's words.
///
/// The first group of hypotheses is exactly what `find_text_lines` ensures
/// of its result, so the law applies to every layout the analyzer returns;
/// the second is the shape of the input: every word lies in band one
/// (`t1 ..= b1`) or band two (`t2 ..= b2`), the bands are disjoint with
/// band one above, any two words of one band overlap vertically, and both
/// bands are inhabited.
#[verifier::rlimit(60)]
#[verifier::spinoff_prover]
pub proof fn lemma_two_bands_give_two_lines(
    words: Seq<RotatedRect>,
    lines: Seq<Vec<RotatedRect>>,
    t1: int,
    b1: int,
    t2: int,
    b2: int,
)
    requires
        lines_flat(lines).to_multiset() == words.to_multiset(),
        forall|l: int| 0 <= l < lines.len() ==> (#[trigger] lines[l])@.len() > 0,
        forall|l: int|
            0 <= l && l + 1 < lines.len() ==> lines_separated(
                (#[trigger] lines[l])@,
                lines[l + 1]@,
            ),
        forall|l: int| 0 <= l < lines.len() ==> line_has_formation((#[trigger] lines[l])@),
        words_in_two_bands(words, t1, b1, t2, b2),
        band_words_overlap(words, t1, b1),
        band_words_overlap(words, t2, b2),
        t1 <= b1 < t2 <= b2,
        exists|i: int| 0 <= i < words.len() && in_band(#[trigger] words[i], t1, b1),
        exists|i: int| 0 <= i < words.len() && in_band(#[trigger] words[i], t2, b2),
    ensures
        lines.len() == 2,
        forall|k: int| 0 <= k < lines[0]@.len() ==> in_band(#[trigger] lines[0]@[k], t1, b1),
        forall|k: int| 0 <= k < lines[1]@.len() ==> in_band(#[trigger] lines[1]@[k], t2, b2),
{
    broadcast use vstd::seq_lib::group_to_multiset_ensures;

    let flat = lines_flat(lines);
    // Every line member is one of the input words, hence in a band; words
    // below the second band's top are in band one and the others in band
    // two, since the bands are disjoint.
    assert forall|l: int, k: int|
        0 <= l < lines.len() && 0 <= k < lines[l]@.len() implies (in_band(
        #[trigger] lines[l]@[k],
        t1,
        b1,
    ) || in_band(lines[l]@[k], t2, b2)) && (exists|i: int|
        0 <= i < words.len() && #[trigger] words[i] == lines[l]@[k]) by {
        assert(line_views(lines)[l] == lines[l]@);
        lemma_flatten_member(line_views(lines), l, k);
        assert(flat.to_multiset().count(lines[l]@[k]) > 0);
        assert(words.contains(lines[l]@[k]));
        let i = choose|i: int| 0 <= i < words.len() && words[i] == lines[l]@[k];
        assert(words[i] == lines[l]@[k]);
    }
    // No line mixes the bands: the band-two member with the first position
    // in the line's formation order could not hang on anything above it.
    assert forall|l: int|
        #![trigger lines[l]]
        0 <= l < lines.len() implies (forall|k: int|
        0 <= k < lines[l]@.len() ==> in_band(#[trigger] lines[l]@[k], t1, b1)) || (forall|k: int|
        0 <= k < lines[l]@.len() ==> in_band(#[trigger] lines[l]@[k], t2, b2)) by {
        if exists|k: int| 0 <= k < lines[l]@.len() && in_band(#[trigger] lines[l]@[k], t1, b1) {
            if exists|k: int|
                0 <= k < lines[l]@.len() && in_band(#[trigger] lines[l]@[k], t2, b2) {
                let ka = choose|k: int|
                    0 <= k < lines[l]@.len() && in_band(#[trigger] lines[l]@[k], t1, b1);
                let kb = choose|k: int|
                    0 <= k < lines[l]@.len() && in_band(#[trigger] lines[l]@[k], t2, b2);
                let form = choose|form: Seq<RotatedRect>|
                    {
                        &&& #[trigger] form.to_multiset() == lines[l]@.to_multiset()
                        &&& vkey_sorted(form)
                        &&& chained_down(form)
                    };
                // Transfer band membership facts onto the formation order.
                assert(form.len() == lines[l]@.len()) by {
                    assert(form.to_multiset().len() == lines[l]@.to_multiset().len());
                }
                assert forall|k: int| 0 <= k < form.len() implies in_band(
                    #[trigger] form[k],
                    t1,
                    b1,
                ) || in_band(form[k], t2, b2) by {
                    lemma_member_via_multiset(form, lines[l]@, k);
                    let j = choose|j: int| 0 <= j < lines[l]@.len() && lines[l]@[j] == form[k];
                    assert(lines[l]@[j] == form[k]);
                }
                lemma_member_via_multiset(lines[l]@, form, ka);
                let fa = choose|j: int| 0 <= j < form.len() && form[j] == lines[l]@[ka];
                lemma_member_via_multiset(lines[l]@, form, kb);
                let fb0 = choose|j: int| 0 <= j < form.len() && form[j] == lines[l]@[kb];
                assert(form[fb0].top2() >= t2);
                lemma_first_reaching_top(form, t2, fb0);
                let fb = choose|k: int|
                    #![trigger form[k]]
                    0 <= k < form.len() && form[k].top2() >= t2 && forall|k2: int|
                        0 <= k2 < k ==> (#[trigger] form[k2]).top2() < t2;
                // Band one sorts strictly before band two.
                assert(form[fa].top2() <= b1);
                assert(fa < fb) by {
                    if fb < fa {
                        assert(vkey_le(form[fb], form[fa]));
                    } else if fa == fb {
                        assert(form[fa].top2() < t2);
                    }
                }
                // So the first band-two word is not first in the formation,
                // yet nothing before it reaches down to band two.
                assert(exists|k2: int|
                    0 <= k2 < fb && (#[trigger] form[fb]).top2() <= form[k2].bottom2());
                let k2 = choose|k2: int|
                    0 <= k2 < fb && (#[trigger] form[fb]).top2() <= form[k2].bottom2();
                assert(form[k2].top2() < t2);
                assert(in_band(form[k2], t1, b1));
                assert(form[k2].bottom2() <= b1);
                assert(false);
            }
        }
    }
    // Both bands are inhabited, so both kinds of line occur.
    let ia = choose|i: int| 0 <= i < words.len() && in_band(#[trigger] words[i], t1, b1);
    let ib = choose|i: int| 0 <= i < words.len() && in_band(#[trigger] words[i], t2, b2);
    assert(flat.to_multiset().count(words[ia]) > 0) by {
        assert(words.contains(words[ia]));
    }
    assert(flat.contains(words[ia]));
    lemma_flatten_member_rev(line_views(lines), words[ia]);
    let (la, ka2) = choose|l: int, k: int|
        0 <= l < line_views(lines).len() && 0 <= k < line_views(lines)[l].len()
            && line_views(lines)[l][k] == words[ia];
    assert(lines[la]@[ka2] == words[ia]);
    assert(flat.to_multiset().count(words[ib]) > 0) by {
        assert(words.contains(words[ib]));
    }
    assert(flat.contains(words[ib]));
    lemma_flatten_member_rev(line_views(lines), words[ib]);
    let (lb, kb2) = choose|l: int, k: int|
        0 <= l < line_views(lines).len() && 0 <= k < line_views(lines)[l].len()
            && line_views(lines)[l][k] == words[ib];
    assert(lines[lb]@[kb2] == words[ib]);
    assert(la != lb) by {
        assert(lines[la]@[ka2].top2() <= b1);
        assert(lines[lb]@[kb2].top2() >= t2);
    }
    assert(lines.len() >= 2);
    // Consecutive lines are separated, which only a band-one line followed
    // by a band-two line satisfies (two lines of one band would hold a
    // separated pair, against the band's overlap); so there are exactly
    // two lines.
    assert forall|l: int|
        #![trigger lines[l]]
        0 <= l && l + 1 < lines.len() implies (forall|k: int|
        0 <= k < lines[l]@.len() ==> in_band(#[trigger] lines[l]@[k], t1, b1)) && (forall|k: int|
        0 <= k < lines[l + 1]@.len() ==> in_band(#[trigger] lines[l + 1]@[k], t2, b2)) by {
        let w1 = lines[l]@[0];
        let w2 = lines[l + 1]@[0];
        assert(w2.top2() > w1.bottom2());
        let i1 = choose|i: int| 0 <= i < words.len() && #[trigger] words[i] == w1;
        let i2 = choose|i: int| 0 <= i < words.len() && #[trigger] words[i] == w2;
        if in_band(w1, t2, b2) {
            // Nothing can begin strictly below a band-two word within the
            // bands, so the pair is impossible.
            if in_band(w2, t2, b2) {
                assert(words[i2].top2() <= words[i1].bottom2());
            } else {
                assert(w2.top2() <= b1);
                assert(w1.bottom2() >= w1.top2() >= t2);
            }
            assert(false);
        }
        assert(in_band(w1, t1, b1));
        if in_band(w2, t1, b1) {
            assert(words[i2].top2() <= words[i1].bottom2());
            assert(false);
        }
        assert(in_band(w2, t2, b2));
        assert forall|k: int| 0 <= k < lines[l]@.len() implies in_band(
            #[trigger] lines[l]@[k],
            t1,
            b1,
        ) by {
            assert(in_band(lines[l]@[0], t1, b1));
        }
        assert forall|k: int| 0 <= k < lines[l + 1]@.len() implies in_band(
            #[trigger] lines[l + 1]@[k],
            t2,
            b2,
        ) by {
            assert(in_band(lines[l + 1]@[0], t2, b2));
        }
    }
    if lines.len() > 2 {
        let ghost x0 = lines[0];
        let ghost x1 = lines[1];
        let ghost x2 = lines[2];
        assert(lines[1]@.len() > 0);
        assert(in_band(lines[1]@[0], t2, b2));
        assert(in_band(lines[1]@[0], t1, b1));
        assert(false);
    }
    assert(lines.len() == 2);
}

/// Proof that a member of the grown sequence is the new element or a member
/// of the original.
proof fn lemma_member_via_multiset_ins(
    before: Seq<RotatedRect>,
    after: Seq<RotatedRect>,
    k: int,
    w: RotatedRect,
)
    requires
        after.to_multiset() == before.to_multiset().insert(w),
        0 <= k < after.len(),
    ensures
        after[k] == w || exists|j: int| 0 <= j < before.len() && before[j] == after[k],
{
    broadcast use vstd::seq_lib::group_to_multiset_ensures;

    if after[k] != w {
        assert(after.contains(after[k]));
        assert(after.to_multiset().count(after[k]) > 0);
        assert(before.to_multiset().count(after[k]) > 0);
        assert(before.contains(after[k]));
    }
}

} // verus!
