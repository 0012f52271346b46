//! The steps that undo a recorded run: recreate each directory it removed,
//! then move each file back from where the run put it.

use vstd::prelude::*;
use crate::log::{Log, LogEntry, LogView, MoveView};
use crate::paths::{parent, parent_of};

verus! {

/// One step of undoing a run.
pub enum RestoreAction {
    /// Recreate a directory that the run removed.
    CreateDirectory(String),
    /// Move a file back from `from` (where the run put it) to `to` (where it
    /// was), after making sure that `parent`, the directory of `to`, exists.
    MoveBack { from: String, to: String, parent: Option<String> },
}

/// A step of undoing a run, as plain values.
pub enum ActionView {
    CreateDirectory(Seq<char>),
    MoveBack(Seq<char>, Seq<char>, Option<Seq<char>>),
}

impl View for RestoreAction {
    type V = ActionView;

    open spec fn view(&self) -> ActionView {
        match self {
            RestoreAction::CreateDirectory(d) => ActionView::CreateDirectory(d@),
            RestoreAction::MoveBack { from, to, parent } => ActionView::MoveBack(
                from@,
                to@,
                match parent {
                    Some(p) => Some(p@),
                    None => None,
                },
            ),
        }
    }
}

/// A sequence of steps as plain values.
pub open spec fn actions_view(s: Seq<RestoreAction>) -> Seq<ActionView> {
    s.map_values(|a: RestoreAction| a@)
}

/// The step that undoes one recorded move.
pub open spec fn move_back_of(m: MoveView) -> ActionView {
    ActionView::MoveBack(m.1, m.0, parent_of(m.0))
}

/// The steps that undo a run: every removed directory recreated, in the
/// order recorded, then every move undone, in the order recorded.
pub open spec fn plan_of(v: LogView) -> Seq<ActionView> {
    v.removed.map_values(|d: Seq<char>| ActionView::CreateDirectory(d)) + v.moves.map_values(
        |m: MoveView| move_back_of(m),
    )
}

/// Where the files are: each path that holds a file, mapped to which file.
pub type Placement = Map<Seq<char>, nat>;

/// The file at `from`, if any, moved to `to`.
pub open spec fn rename(pl: Placement, from: Seq<char>, to: Seq<char>) -> Placement {
    if pl.contains_key(from) {
        pl.remove(from).insert(to, pl[from])
    } else {
        pl
    }
}

/// The placement after each pair `(from, to)` of `ps` is carried out in turn.
pub open spec fn renames(pl: Placement, ps: Seq<MoveView>) -> Placement
    decreases ps.len(),
{
    if ps.len() == 0 {
        pl
    } else {
        rename(renames(pl, ps.drop_last()), ps.last().0, ps.last().1)
    }
}

/// The placement after the steps of a plan are carried out in turn; making
/// a directory moves no file.
pub open spec fn apply_plan(pl: Placement, steps: Seq<ActionView>) -> Placement
    decreases steps.len(),
{
    if steps.len() == 0 {
        pl
    } else {
        let q = apply_plan(pl, steps.drop_last());
        match steps.last() {
            ActionView::CreateDirectory(_) => q,
            ActionView::MoveBack(from, to, _) => rename(q, from, to),
        }
    }
}

/// No two moves start at the same path or end at the same path, and no move
/// ends where any move started.
pub open spec fn separate_moves(ms: Seq<MoveView>) -> bool {
    &&& forall|i: int, j: int|
        0 <= i < ms.len() && 0 <= j < ms.len() && i != j ==> (#[trigger] ms[i]).0 != (
        #[trigger] ms[j]).0 && ms[i].1 != ms[j].1
    &&& forall|i: int, j: int|
        0 <= i < ms.len() && 0 <= j < ms.len() ==> (#[trigger] ms[i]).1 != (#[trigger] ms[j]).0
}

/// Each move found its file and a free place.
pub open spec fn moves_fit(pl: Placement, ms: Seq<MoveView>) -> bool {
    forall|i: int|
        0 <= i < ms.len() ==> pl.contains_key((#[trigger] ms[i]).0) && !pl.contains_key(ms[i].1)
}

/// No pair of `ps` starts or ends at `k`.
pub open spec fn untouched(ps: Seq<MoveView>, k: Seq<char>) -> bool {
    forall|i: int| 0 <= i < ps.len() ==> k != (#[trigger] ps[i]).0 && k != ps[i].1
}

/// Each pair with its ends exchanged.
pub open spec fn swapped(ms: Seq<MoveView>) -> Seq<MoveView> {
    ms.map_values(|m: MoveView| (m.1, m.0))
}

proof fn lemma_renames(pl: Placement, ps: Seq<MoveView>)
    requires
        separate_moves(ps),
        moves_fit(pl, ps),
    ensures
        forall|i: int|
            0 <= i < ps.len() ==> renames(pl, ps).contains_key((#[trigger] ps[i]).1) && renames(
                pl,
                ps,
            )[ps[i].1] == pl[ps[i].0] && !renames(pl, ps).contains_key(ps[i].0),
        forall|k: Seq<char>|
            #[trigger] untouched(ps, k) ==> (renames(pl, ps).contains_key(k) == pl.contains_key(k)
                && (pl.contains_key(k) ==> renames(pl, ps)[k] == pl[k])),
    decreases ps.len(),
{
    if ps.len() > 0 {
        let pre = ps.drop_last();
        let n = ps.len() - 1;
        assert forall|i: int, j: int|
            0 <= i < pre.len() && 0 <= j < pre.len() && i != j implies (#[trigger] pre[i]).0 != (
            #[trigger] pre[j]).0 && pre[i].1 != pre[j].1 by {
            assert(pre[i] == ps[i] && pre[j] == ps[j]);
        }
        assert forall|i: int, j: int|
            0 <= i < pre.len() && 0 <= j < pre.len() implies (#[trigger] pre[i]).1 != (
            #[trigger] pre[j]).0 by {
            assert(pre[i] == ps[i] && pre[j] == ps[j]);
        }
        assert forall|i: int| 0 <= i < pre.len() implies pl.contains_key((#[trigger] pre[i]).0)
            && !pl.contains_key(pre[i].1) by {
            assert(pre[i] == ps[i]);
        }
        lemma_renames(pl, pre);
        let q = renames(pl, pre);
        let a = ps[n].0;
        let b = ps[n].1;
        assert(ps.last() == ps[n]);
        assert forall|i: int| 0 <= i < pre.len() implies a != (#[trigger] pre[i]).0 && a
            != pre[i].1 by {
            assert(pre[i] == ps[i]);
            assert(ps[i].0 != ps[n].0);
            assert(ps[i].1 != ps[n].0);
        }
        assert(untouched(pre, a));
        assert(pl.contains_key(a) && !pl.contains_key(b));
        assert(q.contains_key(a) && q[a] == pl[a]);
        assert(a != b) by {
            assert(ps[n].1 != ps[n].0);
        }
        assert forall|i: int| 0 <= i < pre.len() implies b != (#[trigger] pre[i]).0 && b
            != pre[i].1 by {
            assert(pre[i] == ps[i]);
            assert(ps[n].1 != ps[i].0);
            assert(ps[i].1 != ps[n].1);
        }
        assert(untouched(pre, b));
        assert(!q.contains_key(b));
        let r = renames(pl, ps);
        assert(r == q.remove(a).insert(b, q[a]));
        assert forall|i: int| 0 <= i < ps.len() implies r.contains_key((#[trigger] ps[i]).1)
            && r[ps[i].1] == pl[ps[i].0] && !r.contains_key(ps[i].0) by {
            if i < n {
                assert(pre[i] == ps[i]);
                assert(ps[i].1 != b && ps[i].1 != a);
                assert(ps[i].0 != b && ps[i].0 != a);
            }
        }
        assert forall|k: Seq<char>| #[trigger] untouched(ps, k) implies (r.contains_key(k)
            == pl.contains_key(k) && (pl.contains_key(k) ==> r[k] == pl[k])) by {
            assert(k != ps[n].0 && k != ps[n].1);
            assert forall|i: int| 0 <= i < pre.len() implies k != (#[trigger] pre[i]).0 && k
                != pre[i].1 by {
                assert(pre[i] == ps[i]);
            }
            assert(untouched(pre, k));
        }
    }
}

proof fn lemma_apply_plan_concat(pl: Placement, a: Seq<ActionView>, b: Seq<ActionView>)
    ensures
        apply_plan(pl, a + b) == apply_plan(apply_plan(pl, a), b),
    decreases b.len(),
{
    if b.len() == 0 {
        assert(a + b =~= a);
    } else {
        lemma_apply_plan_concat(pl, a, b.drop_last());
        assert((a + b).drop_last() =~= a + b.drop_last());
    }
}

proof fn lemma_apply_creates(pl: Placement, ds: Seq<Seq<char>>)
    ensures
        apply_plan(pl, ds.map_values(|d: Seq<char>| ActionView::CreateDirectory(d))) == pl,
    decreases ds.len(),
{
    let f = |d: Seq<char>| ActionView::CreateDirectory(d);
    if ds.len() > 0 {
        assert(ds.map_values(f).drop_last() =~= ds.drop_last().map_values(f));
        lemma_apply_creates(pl, ds.drop_last());
    }
}

proof fn lemma_apply_move_backs(pl: Placement, ms: Seq<MoveView>)
    ensures
        apply_plan(pl, ms.map_values(|m: MoveView| move_back_of(m))) == renames(pl, swapped(ms)),
    decreases ms.len(),
{
    let f = |m: MoveView| move_back_of(m);
    if ms.len() > 0 {
        assert(ms.map_values(f).drop_last() =~= ms.drop_last().map_values(f));
        assert(swapped(ms).drop_last() =~= swapped(ms.drop_last()));
        lemma_apply_move_backs(pl, ms.drop_last());
    }
}

/// Carrying out the plan that undoes a run puts every file back where it
/// was before the run, provided each of the run's moves found its file and a
/// free place, and no two moves shared a start, an end, or an end with a
/// start.
pub proof fn lemma_restore_undoes_run(pl: Placement, v: LogView)
    requires
        separate_moves(v.moves),
        moves_fit(pl, v.moves),
    ensures
        apply_plan(renames(pl, v.moves), plan_of(v)) == pl,
{
    let ms = v.moves;
    let q = renames(pl, ms);
    lemma_renames(pl, ms);
    let sw = swapped(ms);
    assert forall|i: int| 0 <= i < sw.len() implies (#[trigger] sw[i]) == (ms[i].1, ms[i].0) by {}
    assert forall|i: int, j: int|
        0 <= i < sw.len() && 0 <= j < sw.len() && i != j implies (#[trigger] sw[i]).0 != (
        #[trigger] sw[j]).0 && sw[i].1 != sw[j].1 by {
        assert(ms[i].1 != ms[j].1 && ms[i].0 != ms[j].0);
    }
    assert forall|i: int, j: int|
        0 <= i < sw.len() && 0 <= j < sw.len() implies (#[trigger] sw[i]).1 != (
        #[trigger] sw[j]).0 by {
        assert(ms[j].1 != ms[i].0);
    }
    assert forall|i: int| 0 <= i < sw.len() implies q.contains_key((#[trigger] sw[i]).0)
        && !q.contains_key(sw[i].1) by {
        assert(ms[i] == ms[i]);
    }
    lemma_renames(q, sw);
    let r = renames(q, sw);
    let cs = v.removed.map_values(|d: Seq<char>| ActionView::CreateDirectory(d));
    let bs = v.moves.map_values(|m: MoveView| move_back_of(m));
    lemma_apply_plan_concat(q, cs, bs);
    lemma_apply_creates(q, v.removed);
    lemma_apply_move_backs(q, ms);
    assert forall|k: Seq<char>| #[trigger] r.contains_key(k) == pl.contains_key(k) && (
    pl.contains_key(k) ==> r[k] == pl[k]) by {
        if exists|i: int| 0 <= i < ms.len() && k == (#[trigger] ms[i]).0 {
            let i = choose|i: int| 0 <= i < ms.len() && k == (#[trigger] ms[i]).0;
            assert(sw[i].1 == k);
        } else if exists|i: int| 0 <= i < ms.len() && k == (#[trigger] ms[i]).1 {
            let i = choose|i: int| 0 <= i < ms.len() && k == (#[trigger] ms[i]).1;
            assert(sw[i].0 == k);
        } else {
            assert forall|i: int| 0 <= i < sw.len() implies k != (#[trigger] sw[i]).0 && k
                != sw[i].1 by {
                assert(k != ms[i].0 && k != ms[i].1);
            }
            assert(untouched(sw, k));
            assert forall|i: int| 0 <= i < ms.len() implies k != (#[trigger] ms[i]).0 && k
                != ms[i].1 by {}
            assert(untouched(ms, k));
        }
    }
    assert(r =~= pl);
}

/// The step that undoes `e`.
pub fn move_back(e: &LogEntry) -> (r: RestoreAction)
    ensures
        r@ == move_back_of(e@),
{
    let to = e.old_path().clone();
    let p = parent(to.as_str());
    RestoreAction::MoveBack { from: e.new_path().clone(), to, parent: p }
}

/// The steps that undo the run that `log` records.
pub fn restore_plan(log: &Log) -> (r: Vec<RestoreAction>)
    ensures
        actions_view(r@) == plan_of(log@),
{
    let removed = log.removed_directories();
    let moves = log.moves();
    let ghost c = log@.removed.map_values(|d: Seq<char>| ActionView::CreateDirectory(d));
    let ghost m = log@.moves.map_values(|mv: MoveView| move_back_of(mv));
    let mut r: Vec<RestoreAction> = Vec::new();
    let mut i: usize = 0;
    assert(c.take(0) =~= seq![]);
    while i < removed.len()
        invariant
            i <= removed.len(),
            removed.deep_view() == log@.removed,
            c == log@.removed.map_values(|d: Seq<char>| ActionView::CreateDirectory(d)),
            actions_view(r@) == c.take(i as int),
        decreases removed.len() - i,
    {
        let a = RestoreAction::CreateDirectory(removed[i].clone());
        assert(a@ == c[i as int]);
        let ghost r0 = r@;
        r.push(a);
        assert(r@ =~= r0.push(a));
        assert(actions_view(r@) =~= actions_view(r0).push(a@));
        assert(actions_view(r@) =~= c.take(i + 1));
        i = i + 1;
    }
    assert(c.take(i as int) =~= c);
    i = 0;
    assert(c + m.take(0) =~= c);
    while i < moves.len()
        invariant
            i <= moves.len(),
            moves@.map_values(|e: LogEntry| e@) == log@.moves,
            m == log@.moves.map_values(|mv: MoveView| move_back_of(mv)),
            actions_view(r@) == c + m.take(i as int),
        decreases moves.len() - i,
    {
        let a = move_back(&moves[i]);
        assert(moves@[i as int]@ == log@.moves[i as int]);
        assert(a@ == m[i as int]);
        let ghost r0 = r@;
        r.push(a);
        assert(r@ =~= r0.push(a));
        assert(actions_view(r@) =~= actions_view(r0).push(a@));
        assert(actions_view(r@) =~= c + m.take(i + 1));
        i = i + 1;
    }
    assert(m.take(i as int) =~= m);
    r
}

} // verus!
