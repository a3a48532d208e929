//! The state of a plot tab that does not depend on drawing: its curves, the
//! edits the curve editor makes to them, and the tab's title.
use crate::decode::{decimal, push_decimal};
use vstd::prelude::*;

verus! {

/// A curve of a plot: a field of a topic, drawn in `color` (premultiplied
/// RGBA; all zero picks a color automatically).
#[derive(Debug, Clone, PartialEq, Eq)]
pub struct Curve {
    pub topic: String,
    pub field: String,
    pub color: [u8; 4],
}

/// A [`Curve`] as plain values.
pub struct CurveV {
    pub topic: Seq<char>,
    pub field: Seq<char>,
    pub color: [u8; 4],
}

impl View for Curve {
    type V = CurveV;

    open spec fn view(&self) -> CurveV {
        CurveV { topic: self.topic@, field: self.field@, color: self.color }
    }
}

/// The curve a new row of the editor starts with: no topic, no field, and the
/// automatic color.
pub open spec fn default_curve() -> CurveV {
    CurveV { topic: Seq::empty(), field: Seq::empty(), color: [0u8, 0u8, 0u8, 0u8] }
}

impl Default for Curve {
    fn default() -> (c: Curve)
        ensures
            c@ == default_curve(),
    {
        Curve { topic: String::new(), field: String::new(), color: [0u8, 0u8, 0u8, 0u8] }
    }
}

pub open spec fn curves_view(cs: Seq<Curve>) -> Seq<CurveV> {
    cs.map_values(|c: Curve| c@)
}

/// The curves `cs[i]` whose `keep[i]` holds, in order.
pub open spec fn kept(cs: Seq<CurveV>, keep: Seq<bool>) -> Seq<CurveV>
    decreases cs.len(),
{
    if cs.len() == 0 {
        Seq::empty()
    } else {
        let rest = kept(cs.drop_last(), keep);
        if keep[cs.len() - 1] {
            rest.push(cs.last())
        } else {
            rest
        }
    }
}

/// The curves after the insertions `ins`, made last one first: `(p, true)`
/// puts a copy of curve `p` after it, `(p, false)` a default curve after curve
/// `p`. `None` where an insertion refers to a curve that is not there.
pub open spec fn inserted(cs: Seq<CurveV>, ins: Seq<(usize, bool)>) -> Option<Seq<CurveV>>
    decreases ins.len(),
{
    if ins.len() == 0 {
        Some(cs)
    } else {
        let (p, copy) = ins.last();
        if copy {
            if p < cs.len() {
                inserted(cs.insert(p + 1, cs[p as int]), ins.drop_last())
            } else {
                None
            }
        } else {
            if p + 1 <= cs.len() {
                inserted(cs.insert(p + 1, default_curve()), ins.drop_last())
            } else {
                None
            }
        }
    }
}

/// The curves after one pass of the editor: the removed rows go, the inserted
/// rows come, and a plot is never left without a curve.
pub open spec fn edited(cs: Seq<CurveV>, keep: Seq<bool>, ins: Seq<(usize, bool)>) -> Option<Seq<CurveV>> {
    match inserted(kept(cs, keep), ins) {
        Some(r) => Some(if r.len() == 0 { seq![default_curve()] } else { r }),
        None => None,
    }
}

fn copy_curve(c: &Curve) -> (r: Curve)
    ensures
        r@ == c@,
{
    Curve { topic: c.topic.clone(), field: c.field.clone(), color: c.color }
}

/// Whether insertions `ins`, made last one first, each find their curve in a
/// list of `n` curves that grows by one with each insertion.
pub open spec fn inserts_fit(n: int, ins: Seq<(usize, bool)>) -> bool
    decreases ins.len(),
{
    if ins.len() == 0 {
        true
    } else {
        let (p, copy) = ins.last();
        &&& if copy { p < n } else { p + 1 <= n }
        &&& inserts_fit(n + 1, ins.drop_last())
    }
}

proof fn lemma_inserted_some(cs: Seq<CurveV>, ins: Seq<(usize, bool)>)
    ensures
        inserted(cs, ins) is Some <==> inserts_fit(cs.len() as int, ins),
    decreases ins.len(),
{
    if ins.len() > 0 {
        let (p, copy) = ins.last();
        if copy {
            if p < cs.len() {
                lemma_inserted_some(cs.insert(p + 1, cs[p as int]), ins.drop_last());
            }
        } else {
            if p + 1 <= cs.len() {
                lemma_inserted_some(cs.insert(p + 1, default_curve()), ins.drop_last());
            }
        }
    }
}

/// The curves `curves[i]` whose `keep[i]` holds.
fn keep_curves(curves: &Vec<Curve>, keep: &[bool]) -> (out: Vec<Curve>)
    requires
        keep@.len() == curves@.len(),
    ensures
        curves_view(out@) == kept(curves_view(curves@), keep@),
{
    let ghost start = curves_view(curves@);
    let mut out: Vec<Curve> = Vec::new();
    let mut i: usize = 0;
    while i < curves.len()
        invariant
            0 <= i <= curves@.len(),
            keep@.len() == curves@.len(),
            start == curves_view(curves@),
            curves_view(out@) == kept(start.take(i as int), keep@),
        decreases curves@.len() - i,
    {
        proof {
            assert(start.take(i + 1).drop_last() =~= start.take(i as int));
        }
        if keep[i] {
            let c = copy_curve(&curves[i]);
            out.push(c);
            proof {
                assert(curves_view(out@) =~= kept(start.take(i as int), keep@).push(start[i as int]));
            }
        } else {
            proof {
                assert(curves_view(out@) =~= kept(start.take(i as int), keep@));
            }
        }
        i += 1;
    }
    assert(start.take(curves@.len() as int) =~= start);
    out
}

/// Makes the insertions `insert`, last first, then adds a default curve to a
/// list left empty.
fn insert_curves(out: &mut Vec<Curve>, insert: &[(usize, bool)])
    requires
        inserted(curves_view(old(out)@), insert@) is Some,
    ensures
        ({
            let r = inserted(curves_view(old(out)@), insert@)->Some_0;
            curves_view(final(out)@) == if r.len() == 0 { seq![default_curve()] } else { r }
        }),
{
    let ghost whole = inserted(curves_view(out@), insert@);
    assert(insert@.take(insert@.len() as int) =~= insert@);
    let mut k: usize = insert.len();
    while k > 0
        invariant
            0 <= k <= insert@.len(),
            inserted(curves_view(out@), insert@.take(k as int)) == whole,
            whole is Some,
        decreases k,
    {
        let ghost before = curves_view(out@);
        proof {
            assert(insert@.take(k as int).drop_last() =~= insert@.take(k - 1));
            assert(insert@.take(k as int).last() == insert@[k - 1]);
        }
        let (p, copy) = insert[k - 1];
        let len = out.len();
        proof {
            assert(before.len() == len);
            assert(inserted(before, insert@.take(k as int)) is Some);
            if copy {
                assert(p < before.len());
            } else {
                assert(p + 1 <= before.len());
            }
        }
        if copy {
            let c = copy_curve(&out[p]);
            out.insert(p + 1, c);
            proof {
                assert(curves_view(out@) =~= before.insert(p + 1, before[p as int]));
            }
        } else {
            out.insert(p + 1, Curve::default());
            proof {
                assert(curves_view(out@) =~= before.insert(p + 1, default_curve()));
            }
        }
        k -= 1;
    }
    assert(insert@.take(0) =~= Seq::<(usize, bool)>::empty());
    if out.len() == 0 {
        out.push(Curve::default());
        proof {
            assert(curves_view(out@) =~= seq![default_curve()]);
        }
    }
}

/// Applies what the curve editor recorded in one pass: curve `i` stays where
/// `keep[i]`, then each `(p, copy)` of `insert`, last first, puts after curve
/// `p` a copy of it or a default curve; a plot left with no curve gets a
/// default one.
pub fn edit_curves(curves: &mut Vec<Curve>, keep: &[bool], insert: &[(usize, bool)])
    requires
        keep@.len() == old(curves)@.len(),
        edited(curves_view(old(curves)@), keep@, insert@) is Some,
    ensures
        Some(curves_view(final(curves)@)) == edited(curves_view(old(curves)@), keep@, insert@),
        final(curves)@.len() >= 1,
{
    let mut out = keep_curves(curves, keep);
    insert_curves(&mut out, insert);
    *curves = out;
    assert(curves_view(curves@).len() == curves@.len());
}

/// Whether insertions `insert` fit a list of `len` curves, as [`inserts_fit`]
/// says.
fn check_inserts(len: usize, insert: &[(usize, bool)]) -> (b: bool)
    ensures
        b == inserts_fit(len as int, insert@),
{
    let mut n: u128 = len as u128;
    let mut k: usize = insert.len();
    assert(insert@.take(insert@.len() as int) =~= insert@);
    while k > 0
        invariant
            0 <= k <= insert@.len(),
            n == len + (insert@.len() - k),
            inserts_fit(len as int, insert@) == inserts_fit(n as int, insert@.take(k as int)),
        decreases k,
    {
        proof {
            assert(insert@.take(k as int).drop_last() =~= insert@.take(k - 1));
            assert(insert@.take(k as int).last() == insert@[k - 1]);
        }
        let (p, copy) = insert[k - 1];
        let fits = if copy { (p as u128) < n } else { (p as u128) + 1 <= n };
        if !fits {
            return false;
        }
        n = n + 1;
        k -= 1;
    }
    true
}

/// [`edit_curves`] where the insertions find their curves; otherwise (where
/// [`edit_curves`] may not be called) the curves stay as they are. Says whether
/// the edits were made.
pub fn try_edit_curves(curves: &mut Vec<Curve>, keep: &[bool], insert: &[(usize, bool)]) -> (applied: bool)
    requires
        keep@.len() == old(curves)@.len(),
    ensures
        applied == edited(curves_view(old(curves)@), keep@, insert@) is Some,
        applied ==> Some(curves_view(final(curves)@)) == edited(curves_view(old(curves)@), keep@, insert@),
        !applied ==> final(curves)@ == old(curves)@,
        applied ==> final(curves)@.len() >= 1,
{
    let mut out = keep_curves(curves, keep);
    proof {
        lemma_inserted_some(curves_view(out@), insert@);
    }
    if !check_inserts(out.len(), insert) {
        return false;
    }
    insert_curves(&mut out, insert);
    *curves = out;
    assert(curves_view(curves@).len() == curves@.len());
    true
}

proof fn lemma_kept_all(cs: Seq<CurveV>, keep: Seq<bool>)
    requires
        keep.len() >= cs.len(),
        forall|i: int| 0 <= i < cs.len() ==> keep[i],
    ensures
        kept(cs, keep) == cs,
    decreases cs.len(),
{
    if cs.len() > 0 {
        lemma_kept_all(cs.drop_last(), keep);
        assert(cs.drop_last().push(cs.last()) =~= cs);
    }
}

/// A pass of the curve editor in which no row is removed and none inserted
/// leaves the curves as they are, in order, but for a plot with none, which
/// gets one default curve.
pub proof fn law_editor_without_clicks(cs: Seq<CurveV>, keep: Seq<bool>)
    requires
        keep.len() == cs.len(),
        forall|i: int| 0 <= i < cs.len() ==> keep[i],
    ensures
        edited(cs, keep, Seq::empty()) == Some(if cs.len() == 0 { seq![default_curve()] } else { cs }),
{
    lemma_kept_all(cs, keep);
}

/// Whatever rows a pass of the curve editor removes or inserts, the plot is
/// left with at least one curve.
pub proof fn law_editor_keeps_a_curve(cs: Seq<CurveV>, keep: Seq<bool>, ins: Seq<(usize, bool)>)
    requires
        keep.len() == cs.len(),
        inserted(kept(cs, keep), ins) is Some,
    ensures
        edited(cs, keep, ins) is Some,
        edited(cs, keep, ins)->Some_0.len() >= 1,
{
}

/// Clicking "add" on row `p` of a plot, with no row removed, puts a default
/// curve directly after curve `p`, the later curves moving down by one; clicking
/// "copy" puts a copy of curve `p` there.
pub proof fn law_insert_after_row(cs: Seq<CurveV>, keep: Seq<bool>, p: usize)
    requires
        keep.len() == cs.len(),
        forall|i: int| 0 <= i < cs.len() ==> keep[i],
        p < cs.len(),
    ensures
        edited(cs, keep, seq![(p, false)]) == Some(cs.insert(p + 1, default_curve())),
        edited(cs, keep, seq![(p, true)]) == Some(cs.insert(p + 1, cs[p as int])),
        edited(cs, keep, seq![(p, false)])->Some_0[p + 1] == default_curve(),
        edited(cs, keep, seq![(p, true)])->Some_0[p + 1] == cs[p as int],
        forall|i: int| 0 <= i <= p ==> #[trigger] edited(cs, keep, seq![(p, false)])->Some_0[i] == cs[i],
        forall|i: int| p < i < cs.len() ==> #[trigger] edited(cs, keep, seq![(p, false)])->Some_0[i + 1] == cs[i],
{
    lemma_kept_all(cs, keep);
    let a = seq![(p, false)];
    let b = seq![(p, true)];
    assert(a.drop_last().len() == 0);
    assert(b.drop_last().len() == 0);
    assert(a.last() == (p, false));
    assert(b.last() == (p, true));
    let ra = cs.insert(p + 1, default_curve());
    let rb = cs.insert(p + 1, cs[p as int]);
    assert(inserted(ra, a.drop_last()) == Some(ra));
    assert(inserted(rb, b.drop_last()) == Some(rb));
    assert(inserted(cs, a) == Some(ra));
    assert(inserted(cs, b) == Some(rb));
    assert(ra.len() > 0 && rb.len() > 0);
}

proof fn lemma_kept_without(cs: Seq<CurveV>, keep: Seq<bool>, r: int)
    requires
        keep.len() >= cs.len(),
        0 <= r,
        forall|i: int| 0 <= i < cs.len() ==> (keep[i] <==> i != r),
    ensures
        kept(cs, keep) == if r < cs.len() { cs.remove(r) } else { cs },
    decreases cs.len(),
{
    if cs.len() > 0 {
        let d = cs.drop_last();
        if r == cs.len() - 1 {
            lemma_kept_all(d, keep);
            assert(cs.remove(r) =~= d);
        } else {
            lemma_kept_without(d, keep, r);
            if r < cs.len() - 1 {
                assert(d.remove(r).push(cs.last()) =~= cs.remove(r));
            } else {
                assert(d.push(cs.last()) =~= cs);
            }
        }
    }
}

/// Clicking "close" on row `r` of a plot, and nothing else, removes curve `r`,
/// the later curves moving up by one; closing the only curve leaves one
/// default curve.
pub proof fn law_remove_row(cs: Seq<CurveV>, keep: Seq<bool>, r: int)
    requires
        keep.len() == cs.len(),
        0 <= r < cs.len(),
        forall|i: int| 0 <= i < cs.len() ==> (keep[i] <==> i != r),
    ensures
        edited(cs, keep, Seq::empty()) == Some(if cs.len() == 1 { seq![default_curve()] } else { cs.remove(r) }),
        cs.len() > 1 ==> edited(cs, keep, Seq::empty())->Some_0.len() == cs.len() - 1,
        cs.len() > 1 ==> forall|i: int| 0 <= i < r ==> #[trigger] edited(cs, keep, Seq::empty())->Some_0[i] == cs[i],
        cs.len() > 1 ==> forall|i: int| r < i < cs.len() ==> #[trigger] cs[i] == edited(cs, keep, Seq::empty())->Some_0[i - 1],
{
    lemma_kept_without(cs, keep, r);
}

/// The text `Tab <id>`.
pub open spec fn default_title(id: nat) -> Seq<char> {
    "Tab "@ + decimal(id)
}

/// The title of a plot tab: its own title, or `Tab <id>` while that is empty.
pub fn tab_title(title: &str, id: usize) -> (r: String)
    ensures
        r@ == if title@.len() == 0 { default_title(id as nat) } else { title@ },
{
    if title.is_empty() {
        let mut s = String::new();
        proof {
            reveal_strlit("Tab ");
        }
        s.append("Tab ");
        push_decimal(&mut s, id);
        proof {
            assert(s@ =~= default_title(id as nat));
        }
        s
    } else {
        title.to_owned()
    }
}

} // verus!
