//! The change log: which directories a run created and removed, and which
//! files it moved where, with its text form.

use vstd::prelude::*;
use crate::paths::slice;

verus! {

/// What the log records of one completed move: the old path and the new one.
pub type MoveView = (Seq<char>, Seq<char>);

/// The log as plain values.
pub struct LogView {
    pub base: Seq<char>,
    pub created: Seq<Seq<char>>,
    pub removed: Seq<Seq<char>>,
    pub moves: Seq<MoveView>,
}

/// `dirs` with `p` added at the end unless it is already there.
pub open spec fn record_dir(dirs: Seq<Seq<char>>, p: Seq<char>) -> Seq<Seq<char>> {
    if dirs.contains(p) {
        dirs
    } else {
        dirs.push(p)
    }
}

impl LogView {
    /// No directory is listed twice.
    pub open spec fn well_formed(self) -> bool {
        self.created.no_duplicates() && self.removed.no_duplicates()
    }

    /// A log of a run over `base` that has recorded nothing yet.
    pub open spec fn empty(base: Seq<char>) -> LogView {
        LogView { base, created: seq![], removed: seq![], moves: seq![] }
    }

    /// The log after recording that directory `p` was created.
    pub open spec fn with_created(self, p: Seq<char>) -> LogView {
        LogView { created: record_dir(self.created, p), ..self }
    }

    /// The log after recording that directory `p` was removed.
    pub open spec fn with_removed(self, p: Seq<char>) -> LogView {
        LogView { removed: record_dir(self.removed, p), ..self }
    }

    /// The log after recording a move from `old_path` to `new_path`.
    pub open spec fn with_move(self, old_path: Seq<char>, new_path: Seq<char>) -> LogView {
        LogView { moves: self.moves.push((old_path, new_path)), ..self }
    }
}

/// One completed move of a file.
pub struct LogEntry {
    old_path: String,
    new_path: String,
}

impl View for LogEntry {
    type V = MoveView;

    closed spec fn view(&self) -> MoveView {
        (self.old_path@, self.new_path@)
    }
}

/// The text ` -> ` that separates the two paths of a move line.
pub open spec fn arrow() -> Seq<char> {
    seq![' ', '-', '>', ' ']
}

/// The text `+ ` that starts the line of a created directory.
pub open spec fn plus() -> Seq<char> {
    seq!['+', ' ']
}

/// The line of a move: `<old> -> <new>`.
pub open spec fn move_line(m: MoveView) -> Seq<char> {
    m.0 + arrow() + m.1
}

impl LogEntry {
    pub fn new(old_path: String, new_path: String) -> (r: LogEntry)
        ensures
            r@ == (old_path@, new_path@),
    {
        LogEntry { old_path, new_path }
    }

    /// The entry as its line of the log text.
    pub fn to_string(&self) -> (r: String)
        ensures
            r@ == move_line(self@),
    {
        proof {
            reveal_strlit(" -> ");
        }
        let r = self.old_path.clone().concat(" -> ").concat(self.new_path.as_str());
        assert(r@ =~= move_line(self@));
        r
    }

    pub fn old_path(&self) -> (r: &String)
        ensures
            r@ == self@.0,
    {
        &self.old_path
    }

    pub fn new_path(&self) -> (r: &String)
        ensures
            r@ == self@.1,
    {
        &self.new_path
    }
}

/// The record of one run: its base directory, the directories it created and
/// removed (each once, in the order first seen) and the moves it made (in the
/// order they completed).
pub struct Log {
    base_directory: String,
    created_directories: Vec<String>,
    removed_directories: Vec<String>,
    moves: Vec<LogEntry>,
}

impl View for Log {
    type V = LogView;

    closed spec fn view(&self) -> LogView {
        LogView {
            base: self.base_directory@,
            created: self.created_directories.deep_view(),
            removed: self.removed_directories.deep_view(),
            moves: self.moves@.map_values(|e: LogEntry| e@),
        }
    }
}

/// Lines joined, each preceded by a newline.
pub open spec fn lines_text(ls: Seq<Seq<char>>) -> Seq<char>
    decreases ls.len(),
{
    if ls.len() == 0 {
        seq![]
    } else {
        lines_text(ls.drop_last()) + seq!['\n'] + ls.last()
    }
}

/// The line of a created directory: `+ <path>`.
pub open spec fn created_line(p: Seq<char>) -> Seq<char> {
    plus() + p
}

/// The lines after the first: created directories, then removed
/// directories, then moves, each group in recorded order.
pub open spec fn body_lines(v: LogView) -> Seq<Seq<char>> {
    v.created.map_values(|p: Seq<char>| created_line(p)) + v.removed + v.moves.map_values(
        |m: MoveView| move_line(m),
    )
}

/// The text form of a log: the base directory on the first line, then one
/// line for each recorded fact.
pub open spec fn serialize(v: LogView) -> Seq<char> {
    v.base + lines_text(body_lines(v))
}

proof fn lemma_lines_text_push(ls: Seq<Seq<char>>, x: Seq<char>)
    ensures
        lines_text(ls.push(x)) == lines_text(ls) + seq!['\n'] + x,
{
    assert(ls.push(x).drop_last() =~= ls);
}

/// The pieces of `t` between newlines, one more than `t` has newlines.
pub open spec fn pieces(t: Seq<char>) -> Seq<Seq<char>>
    decreases t.len(),
{
    if t.len() == 0 {
        seq![seq![]]
    } else if t.last() == '\n' {
        pieces(t.drop_last()).push(seq![])
    } else {
        let p = pieces(t.drop_last());
        p.update(p.len() - 1, p.last().push(t.last()))
    }
}

pub proof fn lemma_pieces_len(t: Seq<char>)
    ensures
        pieces(t).len() >= 1,
    decreases t.len(),
{
    if t.len() > 0 {
        lemma_pieces_len(t.drop_last());
    }
}

/// A line without the carriage return that may end it.
pub open spec fn strip_cr(l: Seq<char>) -> Seq<char> {
    if l.len() > 0 && l.last() == '\r' {
        l.drop_last()
    } else {
        l
    }
}

/// The lines of a text: the pieces between newlines, where a piece that
/// ends in a newline loses a carriage return before it, and an empty last
/// piece is no line.
pub open spec fn lines_of(t: Seq<char>) -> Seq<Seq<char>> {
    let ps = pieces(t);
    let first = ps.drop_last().map_values(|l: Seq<char>| strip_cr(l));
    if ps.last().len() == 0 {
        first
    } else {
        first.push(ps.last())
    }
}

/// `pat` occurs in `s` starting at `k`.
pub open spec fn occurs_at(s: Seq<char>, pat: Seq<char>, k: int) -> bool {
    0 <= k && k + pat.len() <= s.len() && s.subrange(k, k + pat.len()) == pat
}

/// The first place at or after `k` where `pat` occurs in `s`, or -1.
pub open spec fn find_from(s: Seq<char>, pat: Seq<char>, k: int) -> int
    decreases s.len() + 1 - k,
{
    if k < 0 || k + pat.len() > s.len() {
        -1
    } else if occurs_at(s, pat, k) {
        k
    } else {
        find_from(s, pat, k + 1)
    }
}

pub proof fn lemma_find_from(s: Seq<char>, pat: Seq<char>, k: int)
    requires
        0 <= k,
    ensures
        find_from(s, pat, k) == -1 || k <= find_from(s, pat, k),
        find_from(s, pat, k) >= 0 ==> occurs_at(s, pat, find_from(s, pat, k)),
        forall|j: int|
            k <= j && (find_from(s, pat, k) == -1 || j < find_from(s, pat, k)) ==> !occurs_at(
                s,
                pat,
                j,
            ),
    decreases s.len() + 1 - k,
{
    if k + pat.len() <= s.len() && !occurs_at(s, pat, k) {
        lemma_find_from(s, pat, k + 1);
    }
}

/// `l` without every `+ ` that starts it.
pub open spec fn trim_plus(l: Seq<char>) -> Seq<char>
    decreases l.len(),
{
    if plus().is_prefix_of(l) {
        trim_plus(l.subrange(2, l.len() as int))
    } else {
        l
    }
}

/// What one line adds to a log being read: nothing when it is empty, a move
/// when it holds ` -> ` (split at the first one), a created directory when it
/// starts with `+ `, and a removed directory otherwise.
pub open spec fn parse_line(v: LogView, line: Seq<char>) -> LogView {
    let k = find_from(line, arrow(), 0);
    if line.len() == 0 {
        v
    } else if k >= 0 {
        v.with_move(line.subrange(0, k), line.subrange(k + 4, line.len() as int))
    } else if plus().is_prefix_of(line) {
        v.with_created(trim_plus(line))
    } else {
        v.with_removed(line)
    }
}

/// The log after reading the lines `ls` into `v`, in order.
pub open spec fn parse_lines(v: LogView, ls: Seq<Seq<char>>) -> LogView
    decreases ls.len(),
{
    if ls.len() == 0 {
        v
    } else {
        parse_line(parse_lines(v, ls.drop_last()), ls.last())
    }
}

/// The log that a text holds: its first line is the base directory, each
/// further line one fact. A text without lines holds none.
pub open spec fn parse(t: Seq<char>) -> Option<LogView> {
    let ls = lines_of(t);
    if ls.len() == 0 {
        None
    } else {
        Some(parse_lines(LogView::empty(ls[0]), ls.drop_first()))
    }
}

/// Why a log text could not be read.
pub enum LogError {
    /// The text has no first line.
    CorruptLog,
}

/// The log after recording the moves `ms` one after another.
pub open spec fn record_moves(v: LogView, ms: Seq<MoveView>) -> LogView
    decreases ms.len(),
{
    if ms.len() == 0 {
        v
    } else {
        record_moves(v, ms.drop_last()).with_move(ms.last().0, ms.last().1)
    }
}

/// Recording moves one at a time keeps every one of them exactly once and
/// in the order recorded: N moves add exactly N records, and nothing else in
/// the log changes.
pub proof fn lemma_record_moves(v: LogView, ms: Seq<MoveView>)
    ensures
        record_moves(v, ms).moves == v.moves + ms,
        record_moves(v, ms).moves.len() == v.moves.len() + ms.len(),
        record_moves(v, ms).base == v.base,
        record_moves(v, ms).created == v.created,
        record_moves(v, ms).removed == v.removed,
    decreases ms.len(),
{
    if ms.len() == 0 {
        assert(v.moves + ms =~= v.moves);
    } else {
        lemma_record_moves(v, ms.drop_last());
        assert(v.moves + ms =~= (v.moves + ms.drop_last()).push(ms.last()));
    }
}

/// `p` holds no newline and no carriage return.
pub open spec fn no_line_break(p: Seq<char>) -> bool {
    forall|j: int| 0 <= j < p.len() ==> p[j] != '\n' && p[j] != '\r'
}

/// ` -> ` occurs somewhere in `s`.
pub open spec fn contains_arrow(s: Seq<char>) -> bool {
    exists|k: int| occurs_at(s, arrow(), k)
}

/// The log can be written as text and read back: the base directory is not
/// empty, no path breaks a line, a directory path neither starts with `+ `
/// nor makes its line hold ` -> `, a removed directory is not empty, and the
/// old path of a move, with the start of the separator after it, holds no
/// separator.
pub open spec fn storable(v: LogView) -> bool {
    &&& v.base.len() > 0
    &&& no_line_break(v.base)
    &&& forall|i: int| 0 <= i < v.created.len() ==> storable_created(#[trigger] v.created[i])
    &&& forall|i: int| 0 <= i < v.removed.len() ==> storable_removed(#[trigger] v.removed[i])
    &&& forall|i: int| 0 <= i < v.moves.len() ==> storable_move(#[trigger] v.moves[i])
}

/// A created directory whose line can be read back.
pub open spec fn storable_created(p: Seq<char>) -> bool {
    no_line_break(p) && !contains_arrow(created_line(p)) && !plus().is_prefix_of(p)
}

/// A removed directory whose line can be read back.
pub open spec fn storable_removed(p: Seq<char>) -> bool {
    p.len() > 0 && no_line_break(p) && !contains_arrow(p) && !plus().is_prefix_of(p)
}

/// A move whose line can be read back.
pub open spec fn storable_move(m: MoveView) -> bool {
    no_line_break(m.0) && no_line_break(m.1) && !contains_arrow(m.0 + seq![' ', '-', '>'])
}

proof fn lemma_pieces_append(s: Seq<char>, l: Seq<char>)
    requires
        forall|j: int| 0 <= j < l.len() ==> l[j] != '\n',
    ensures
        pieces(s + l) == pieces(s).update(
            pieces(s).len() - 1,
            pieces(s).last() + l,
        ),
    decreases l.len(),
{
    lemma_pieces_len(s);
    if l.len() == 0 {
        assert(s + l =~= s);
        assert(pieces(s).last() + l =~= pieces(s).last());
        assert(pieces(s).update(pieces(s).len() - 1, pieces(s).last()) =~= pieces(s));
    } else {
        lemma_pieces_append(s, l.drop_last());
        assert((s + l).drop_last() =~= s + l.drop_last());
        assert((s + l).last() == l.last());
        assert((pieces(s).last() + l.drop_last()).push(l.last()) =~= pieces(s).last() + l);
        assert(pieces(s + l) =~= pieces(s).update(pieces(s).len() - 1, pieces(s).last() + l));
    }
}

proof fn lemma_pieces_text(base: Seq<char>, ls: Seq<Seq<char>>)
    requires
        no_line_break(base),
        forall|i: int| 0 <= i < ls.len() ==> no_line_break(#[trigger] ls[i]),
    ensures
        pieces(base + lines_text(ls)) == seq![base] + ls,
    decreases ls.len(),
{
    if ls.len() == 0 {
        lemma_pieces_append(seq![], base);
        assert(seq![] + base =~= base);
        assert(base + lines_text(ls) =~= base);
        assert(seq![base] + ls =~= seq![base]);
        assert(pieces(seq![]).last() + base =~= base);
        assert(pieces(seq![]).update(0, base) =~= seq![base]);
    } else {
        let x = ls.last();
        let pre = base + lines_text(ls.drop_last());
        lemma_pieces_text(base, ls.drop_last());
        assert(base + lines_text(ls) =~= pre.push('\n') + x);
        assert(pre.push('\n').drop_last() =~= pre);
        lemma_pieces_append(pre.push('\n'), x);
        assert(no_line_break(x));
        assert(seq![] + x =~= x);
        assert(pieces(pre.push('\n')) == pieces(pre).push(seq![]));
        assert(seq![base] + ls =~= (seq![base] + ls.drop_last()).push(x));
        assert(pieces(base + lines_text(ls)) =~= seq![base] + ls);
    }
}

proof fn lemma_parse_lines_concat(v: LogView, a: Seq<Seq<char>>, b: Seq<Seq<char>>)
    ensures
        parse_lines(v, a + b) == parse_lines(parse_lines(v, a), b),
    decreases b.len(),
{
    if b.len() == 0 {
        assert(a + b =~= a);
    } else {
        lemma_parse_lines_concat(v, a, b.drop_last());
        assert((a + b).drop_last() =~= a + b.drop_last());
    }
}

proof fn lemma_no_arrow(s: Seq<char>)
    requires
        !contains_arrow(s),
    ensures
        find_from(s, arrow(), 0) == -1,
{
    lemma_find_from(s, arrow(), 0);
}

proof fn lemma_trim_plus_once(p: Seq<char>)
    requires
        !plus().is_prefix_of(p),
    ensures
        trim_plus(created_line(p)) == p,
{
    assert(trim_plus(p) == p);
    assert(plus().is_prefix_of(created_line(p)));
    assert(created_line(p).subrange(2, created_line(p).len() as int) =~= p);
}

proof fn lemma_parse_created(x: LogView, ps: Seq<Seq<char>>)
    requires
        (x.created + ps).no_duplicates(),
        forall|i: int| 0 <= i < ps.len() ==> storable_created(#[trigger] ps[i]),
    ensures
        parse_lines(x, ps.map_values(|p: Seq<char>| created_line(p))) == (LogView {
            created: x.created + ps,
            ..x
        }),
    decreases ps.len(),
{
    let f = |p: Seq<char>| created_line(p);
    if ps.len() == 0 {
        assert(ps.map_values(f) =~= seq![]);
        assert(x.created + ps =~= x.created);
    } else {
        let q = ps.last();
        assert(ps.map_values(f).drop_last() =~= ps.drop_last().map_values(f));
        assert((x.created + ps.drop_last()) =~= (x.created + ps).drop_last());
        lemma_parse_created(x, ps.drop_last());
        assert(storable_created(ps[ps.len() - 1]));
        lemma_no_arrow(created_line(q));
        lemma_trim_plus_once(q);
        assert(!(x.created + ps.drop_last()).contains(q)) by {
            if (x.created + ps.drop_last()).contains(q) {
                let k = choose|k: int|
                    0 <= k < (x.created + ps.drop_last()).len() && (x.created
                        + ps.drop_last())[k] == q;
                assert((x.created + ps)[k] == (x.created + ps)[(x.created + ps).len() - 1]);
            }
        }
        assert((x.created + ps.drop_last()).push(q) =~= x.created + ps);
    }
}

proof fn lemma_parse_removed(x: LogView, ps: Seq<Seq<char>>)
    requires
        (x.removed + ps).no_duplicates(),
        forall|i: int| 0 <= i < ps.len() ==> storable_removed(#[trigger] ps[i]),
    ensures
        parse_lines(x, ps) == (LogView { removed: x.removed + ps, ..x }),
    decreases ps.len(),
{
    if ps.len() == 0 {
        assert(x.removed + ps =~= x.removed);
    } else {
        let q = ps.last();
        assert((x.removed + ps.drop_last()) =~= (x.removed + ps).drop_last());
        lemma_parse_removed(x, ps.drop_last());
        assert(storable_removed(ps[ps.len() - 1]));
        lemma_no_arrow(q);
        assert(!(x.removed + ps.drop_last()).contains(q)) by {
            if (x.removed + ps.drop_last()).contains(q) {
                let k = choose|k: int|
                    0 <= k < (x.removed + ps.drop_last()).len() && (x.removed
                        + ps.drop_last())[k] == q;
                assert((x.removed + ps)[k] == (x.removed + ps)[(x.removed + ps).len() - 1]);
            }
        }
        assert((x.removed + ps.drop_last()).push(q) =~= x.removed + ps);
    }
}

#[verifier::rlimit(40)]
proof fn lemma_find_move_arrow(m: MoveView)
    requires
        !contains_arrow(m.0 + seq![' ', '-', '>']),
    ensures
        find_from(move_line(m), arrow(), 0) == m.0.len(),
{
    let l = move_line(m);
    let n0 = m.0.len() as int;
    let f = find_from(l, arrow(), 0);
    lemma_find_from(l, arrow(), 0);
    assert(occurs_at(l, arrow(), n0)) by {
        assert(l.subrange(n0, n0 + 4) =~= arrow());
    }
    if f != n0 {
        assert(0 <= f < n0);
        let h = m.0 + seq![' ', '-', '>'];
        assert(occurs_at(l, arrow(), f));
        assert forall|t: int| f <= t < f + 4 implies #[trigger] h[t] == l[t] by {
            if t < n0 {
                assert(h[t] == m.0[t]);
                assert(l[t] == m.0[t]);
            }
        }
        assert(h.subrange(f, f + 4) =~= l.subrange(f, f + 4));
        assert(occurs_at(h, arrow(), f));
        assert(contains_arrow(h));
    }
}

proof fn lemma_parse_moves(x: LogView, ms: Seq<MoveView>)
    requires
        forall|i: int| 0 <= i < ms.len() ==> storable_move(#[trigger] ms[i]),
    ensures
        parse_lines(x, ms.map_values(|m: MoveView| move_line(m))) == (LogView {
            moves: x.moves + ms,
            ..x
        }),
    decreases ms.len(),
{
    let f = |m: MoveView| move_line(m);
    if ms.len() == 0 {
        assert(ms.map_values(f) =~= seq![]);
        assert(x.moves + ms =~= x.moves);
    } else {
        let q = ms.last();
        assert(ms.map_values(f).drop_last() =~= ms.drop_last().map_values(f));
        lemma_parse_moves(x, ms.drop_last());
        assert(storable_move(ms[ms.len() - 1]));
        lemma_find_move_arrow(q);
        let l = move_line(q);
        assert(l.subrange(0, q.0.len() as int) =~= q.0);
        assert(l.subrange(q.0.len() as int + 4, l.len() as int) =~= q.1);
        assert((x.moves + ms.drop_last()).push(q) =~= x.moves + ms);
    }
}

/// Reading back the text form of a log gives the same log, for every
/// well-formed log that the text form can hold.
pub proof fn lemma_text_round_trip(v: LogView)
    requires
        v.well_formed(),
        storable(v),
    ensures
        parse(serialize(v)) == Some(v),
{
    let c = v.created.map_values(|p: Seq<char>| created_line(p));
    let m = v.moves.map_values(|mv: MoveView| move_line(mv));
    let body = body_lines(v);
    assert(body =~= c + v.removed + m);
    assert forall|i: int| 0 <= i < body.len() implies no_line_break(#[trigger] body[i])
        && body[i].len() > 0 by {
        if i < c.len() {
            let p = v.created[i];
            assert(storable_created(p));
            assert(body[i] == created_line(p));
            assert(created_line(p)[0] == '+');
            assert(created_line(p)[1] == ' ');
        } else if i < c.len() + v.removed.len() {
            assert(body[i] == v.removed[i - c.len()]);
            assert(storable_removed(v.removed[i - c.len()]));
        } else {
            let mv = v.moves[i - c.len() - v.removed.len()];
            assert(body[i] == move_line(mv));
            assert(storable_move(mv));
            assert(move_line(mv)[mv.0.len() as int] == ' ');
            assert(forall|j: int| 0 <= j < mv.0.len() ==> move_line(mv)[j] == mv.0[j]);
            assert(forall|j: int|
                0 <= j < mv.1.len() ==> move_line(mv)[mv.0.len() + 4 + j] == mv.1[j]);
        }
    }
    lemma_pieces_text(v.base, body);
    let ps = seq![v.base] + body;
    assert(ps.last().len() > 0);
    assert(ps.drop_last().map_values(|l: Seq<char>| strip_cr(l)) =~= ps.drop_last());
    assert(lines_of(serialize(v)) =~= ps);
    assert(ps.drop_first() =~= body);
    let e = LogView::empty(v.base);
    lemma_parse_lines_concat(e, c + v.removed, m);
    lemma_parse_lines_concat(e, c, v.removed);
    assert(e.created + v.created =~= v.created);
    lemma_parse_created(e, v.created);
    let x1 = LogView { created: v.created, ..e };
    assert(x1.removed + v.removed =~= v.removed);
    lemma_parse_removed(x1, v.removed);
    let x2 = LogView { removed: v.removed, ..x1 };
    lemma_parse_moves(x2, v.moves);
    assert(x2.moves + v.moves =~= v.moves);
}

/// Whether `p` is one of `v`.
pub fn contains_path(v: &Vec<String>, p: &String) -> (r: bool)
    ensures
        r == v.deep_view().contains(p@),
{
    let mut i: usize = 0;
    while i < v.len()
        invariant
            i <= v.len(),
            forall|j: int| 0 <= j < i ==> v.deep_view()[j] != p@,
        decreases v.len() - i,
    {
        if v[i] == *p {
            assert(v.deep_view()[i as int] == p@);
            return true;
        }
        i = i + 1;
    }
    false
}

/// Adds `p` to `v` unless it is already there.
fn record_path(v: &mut Vec<String>, p: String)
    ensures
        final(v).deep_view() == record_dir(old(v).deep_view(), p@),
        old(v).deep_view().no_duplicates() ==> final(v).deep_view().no_duplicates(),
{
    if !contains_path(v, &p) {
        let ghost pv = p@;
        v.push(p);
        assert(v.deep_view() =~= old(v).deep_view().push(pv));
    }
}

impl Log {
    /// An empty log of a run over `base_directory`.
    pub fn new(base_directory: String) -> (r: Log)
        ensures
            r@ == LogView::empty(base_directory@),
            r@.well_formed(),
    {
        let r = Log {
            base_directory,
            created_directories: Vec::new(),
            removed_directories: Vec::new(),
            moves: Vec::new(),
        };
        assert(r@.created =~= seq![]);
        assert(r@.removed =~= seq![]);
        assert(r@.moves =~= seq![]);
        r
    }

    /// Records that the run created directory `path`; a path already recorded
    /// is not added again.
    pub fn create_directory(&mut self, path: String)
        ensures
            final(self)@ == old(self)@.with_created(path@),
            old(self)@.well_formed() ==> final(self)@.well_formed(),
    {
        record_path(&mut self.created_directories, path);
    }

    /// Records that the run removed directory `path`; a path already recorded
    /// is not added again.
    pub fn remove_directory(&mut self, path: String)
        ensures
            final(self)@ == old(self)@.with_removed(path@),
            old(self)@.well_formed() ==> final(self)@.well_formed(),
    {
        record_path(&mut self.removed_directories, path);
    }

    /// Records a completed move from `old_path` to `new_path`.
    pub fn move_file(&mut self, old_path: String, new_path: String)
        ensures
            final(self)@ == old(self)@.with_move(old_path@, new_path@),
            old(self)@.well_formed() ==> final(self)@.well_formed(),
    {
        let e = LogEntry::new(old_path, new_path);
        self.moves.push(e);
        assert(self@.moves =~= old(self)@.moves.push((old_path@, new_path@)));
    }

    pub fn base_directory(&self) -> (r: &String)
        ensures
            r@ == self@.base,
    {
        &self.base_directory
    }

    pub fn removed_directories(&self) -> (r: &Vec<String>)
        ensures
            r.deep_view() == self@.removed,
    {
        &self.removed_directories
    }

    pub fn moves(&self) -> (r: &Vec<LogEntry>)
        ensures
            r@.map_values(|e: LogEntry| e@) == self@.moves,
    {
        &self.moves
    }

    /// The log in its text form.
    pub fn to_string(&self) -> (r: String)
        ensures
            r@ == serialize(self@),
    {
        let ghost c = self@.created.map_values(|p: Seq<char>| created_line(p));
        let ghost rm = self@.removed;
        let ghost mv = self@.moves.map_values(|m: MoveView| move_line(m));
        let mut r = self.base_directory.clone();
        let mut i: usize = 0;
        assert(c.take(0) =~= seq![]);
        while i < self.created_directories.len()
            invariant
                i <= self.created_directories.len(),
                c.len() == self.created_directories.len(),
                c == self@.created.map_values(|p: Seq<char>| created_line(p)),
                self@.created == self.created_directories.deep_view(),
                r@ == self@.base + lines_text(c.take(i as int)),
            decreases self.created_directories.len() - i,
        {
            proof {
                lemma_lines_text_push(c.take(i as int), c[i as int]);
                assert(c.take(i + 1) =~= c.take(i as int).push(c[i as int]));
            }
            let ghost r0 = r@;
            r.append("\n+ ");
            r.append(self.created_directories[i].as_str());
            proof {
                reveal_strlit("\n+ ");
            }
            assert("\n+ "@ =~= seq!['\n'] + plus());
            assert(c[i as int] == created_line(self.created_directories.deep_view()[i as int]));
            assert(r@ =~= r0 + seq!['\n'] + c[i as int]);
            assert(r@ =~= self@.base + lines_text(c.take(i + 1)));
            i = i + 1;
        }
        assert(c.take(i as int) =~= c);
        i = 0;
        assert(c + rm.take(0) =~= c);
        while i < self.removed_directories.len()
            invariant
                i <= self.removed_directories.len(),
                rm == self.removed_directories.deep_view(),
                r@ == self@.base + lines_text(c + rm.take(i as int)),
            decreases self.removed_directories.len() - i,
        {
            proof {
                lemma_lines_text_push(c + rm.take(i as int), rm[i as int]);
                assert(c + rm.take(i + 1) =~= (c + rm.take(i as int)).push(rm[i as int]));
            }
            let ghost r0 = r@;
            r.append("\n");
            r.append(self.removed_directories[i].as_str());
            proof {
                reveal_strlit("\n");
            }
            assert("\n"@ =~= seq!['\n']);
            assert(r@ =~= r0 + seq!['\n'] + rm[i as int]);
            assert(r@ =~= self@.base + lines_text(c + rm.take(i + 1)));
            i = i + 1;
        }
        assert(rm.take(i as int) =~= rm);
        i = 0;
        assert(c + rm + mv.take(0) =~= c + rm);
        while i < self.moves.len()
            invariant
                i <= self.moves.len(),
                mv.len() == self.moves.len(),
                mv == self@.moves.map_values(|m: MoveView| move_line(m)),
                self@.moves == self.moves@.map_values(|e: LogEntry| e@),
                r@ == self@.base + lines_text(c + rm + mv.take(i as int)),
            decreases self.moves.len() - i,
        {
            proof {
                lemma_lines_text_push(c + rm + mv.take(i as int), mv[i as int]);
                assert(c + rm + mv.take(i + 1) =~= (c + rm + mv.take(i as int)).push(mv[i as int]));
            }
            let line = self.moves[i].to_string();
            let ghost r0 = r@;
            r.append("\n");
            r.append(line.as_str());
            proof {
                reveal_strlit("\n");
            }
            assert("\n"@ =~= seq!['\n']);
            assert(mv[i as int] == move_line(self.moves@[i as int]@));
            assert(r@ =~= r0 + seq!['\n'] + mv[i as int]);
            assert(r@ =~= self@.base + lines_text(c + rm + mv.take(i + 1)));
            i = i + 1;
        }
        assert(mv.take(i as int) =~= mv);
        assert(body_lines(self@) =~= c + rm + mv);
        r
    }

    pub fn created_directories(&self) -> (r: &Vec<String>)
        ensures
            r.deep_view() == self@.created,
    {
        &self.created_directories
    }
}

/// The pieces of `text` between newlines.
fn split_pieces(text: &str) -> (r: Vec<String>)
    ensures
        r.deep_view() == pieces(text@),
{
    let n = text.unicode_len();
    let mut done: Vec<String> = Vec::new();
    let mut start: usize = 0;
    let mut j: usize = 0;
    assert(text@.take(0) =~= seq![]);
    assert(done.deep_view().push(text@.subrange(0, 0)) =~= seq![seq![]]);
    while j < n
        invariant
            n == text@.len(),
            start <= j <= n,
            pieces(text@.take(j as int)) == done.deep_view().push(text@.subrange(start as int, j as int)),
        decreases n - j,
    {
        assert(text@.take(j + 1).drop_last() =~= text@.take(j as int));
        if text.get_char(j) == '\n' {
            let piece = slice(text, start, j);
            done.push(piece);
            start = j + 1;
            assert(text@.subrange(start as int, j + 1) =~= seq![]);
        } else {
            assert(text@.subrange(start as int, j + 1) =~= text@.subrange(start as int, j as int).push(text@[j as int]));
        }
        j = j + 1;
        assert(pieces(text@.take(j as int)) =~= done.deep_view().push(text@.subrange(start as int, j as int)));
    }
    let last = slice(text, start, n);
    done.push(last);
    assert(text@.take(n as int) =~= text@);
    done
}

/// The lines of `text`.
pub fn lines(text: &str) -> (r: Vec<String>)
    ensures
        r.deep_view() == lines_of(text@),
{
    let ps = split_pieces(text);
    proof {
        lemma_pieces_len(text@);
    }
    let ghost pv = ps.deep_view();
    let ghost first = pv.drop_last().map_values(|l: Seq<char>| strip_cr(l));
    let mut r: Vec<String> = Vec::new();
    let mut i: usize = 0;
    while i + 1 < ps.len()
        invariant
            pv == ps.deep_view(),
            pv.len() >= 1,
            i < ps.len(),
            first == pv.drop_last().map_values(|l: Seq<char>| strip_cr(l)),
            r.deep_view() == first.take(i as int),
        decreases ps.len() - i,
    {
        let p = &ps[i];
        let m = p.as_str().unicode_len();
        let line = if m > 0 && p.as_str().get_char(m - 1) == '\r' {
            slice(p.as_str(), 0, m - 1)
        } else {
            slice(p.as_str(), 0, m)
        };
        assert(line@ =~= strip_cr(pv[i as int]));
        assert(first[i as int] == strip_cr(pv[i as int]));
        let ghost r0 = r.deep_view();
        r.push(line);
        assert(r.deep_view() =~= r0.push(line@));
        assert(first.take(i + 1) =~= first.take(i as int).push(first[i as int]));
        i = i + 1;
    }
    assert(first.take(i as int) =~= first);
    let last = &ps[i];
    if last.as_str().unicode_len() > 0 {
        r.push(last.clone());
        assert(r.deep_view() =~= first.push(pv.last()));
    }
    r
}

/// Whether `pat` occurs in `s` at `k`.
fn occurs(s: &str, pat: &str, k: usize) -> (r: bool)
    ensures
        r == occurs_at(s@, pat@, k as int),
{
    let n = s.unicode_len();
    let m = pat.unicode_len();
    if k > n || m > n - k {
        return false;
    }
    let mut i: usize = 0;
    while i < m
        invariant
            n == s@.len(),
            m == pat@.len(),
            k + m <= n,
            i <= m,
            forall|j: int| 0 <= j < i ==> s@[k + j] == pat@[j],
        decreases m - i,
    {
        if s.get_char(k + i) != pat.get_char(i) {
            assert(s@.subrange(k as int, k + m)[i as int] != pat@[i as int]);
            return false;
        }
        i = i + 1;
    }
    assert(s@.subrange(k as int, k + m) =~= pat@);
    true
}

/// The first place where `pat` occurs in `s`.
fn find(s: &str, pat: &str) -> (r: Option<usize>)
    ensures
        match r {
            Some(k) => k as int == find_from(s@, pat@, 0),
            None => find_from(s@, pat@, 0) == -1,
        },
{
    let n = s.unicode_len();
    let m = pat.unicode_len();
    if m > n {
        return None;
    }
    let last = n - m;
    let mut k: usize = 0;
    loop
        invariant
            n == s@.len(),
            m == pat@.len(),
            last == n - m,
            k <= last,
            find_from(s@, pat@, 0) == find_from(s@, pat@, k as int),
        decreases last - k,
    {
        if occurs(s, pat, k) {
            return Some(k);
        }
        if k == last {
            assert(find_from(s@, pat@, k + 1) == -1);
            return None;
        }
        k = k + 1;
    }
}

/// Whether the characters of `line` from `i` on start with `+ `.
fn plus_at(line: &str, i: usize) -> (r: bool)
    requires
        i <= line@.len(),
    ensures
        r == plus().is_prefix_of(line@.subrange(i as int, line@.len() as int)),
{
    let n = line.unicode_len();
    let ghost rest = line@.subrange(i as int, n as int);
    if n - i < 2 {
        return false;
    }
    let r = line.get_char(i) == '+' && line.get_char(i + 1) == ' ';
    assert(rest[0] == line@[i as int] && rest[1] == line@[i + 1]);
    if r {
        assert(rest.subrange(0, 2) =~= plus());
    }
    r
}

/// `line` without every `+ ` that starts it.
fn trim_plus_exec(line: &str) -> (r: String)
    ensures
        r@ == trim_plus(line@),
{
    let n = line.unicode_len();
    let mut i: usize = 0;
    assert(line@.subrange(0, n as int) =~= line@);
    while plus_at(line, i)
        invariant
            n == line@.len(),
            i <= n,
            trim_plus(line@) == trim_plus(line@.subrange(i as int, n as int)),
        decreases n - i,
    {
        let ghost rest = line@.subrange(i as int, n as int);
        assert(rest.subrange(2, rest.len() as int) =~= line@.subrange(i + 2, n as int));
        i = i + 2;
    }
    slice(line, i, n)
}

/// Reads a log from its text form. Fails only when the text has no first
/// line. A directory listed twice is kept once. Any non-empty line that is neither a move nor a created directory
/// is read as a removed directory: the format cannot tell such a line from
/// one that is malformed.
pub fn parse_log(text: &str) -> (r: Result<Log, LogError>)
    ensures
        match r {
            Ok(l) => parse(text@) == Some(l@) && l@.well_formed(),
            Err(_) => parse(text@) is None,
        },
{
    let ls = lines(text);
    if ls.len() == 0 {
        return Err(LogError::CorruptLog);
    }
    let ghost lv = ls.deep_view();
    let mut log = Log::new(ls[0].clone());
    let mut i: usize = 1;
    proof {
        reveal_strlit(" -> ");
    }
    assert(lv.drop_first().take(0) =~= seq![]);
    while i < ls.len()
        invariant
            lv == ls.deep_view(),
            1 <= i <= ls.len(),
            log@.well_formed(),
            log@ == parse_lines(LogView::empty(lv[0]), lv.drop_first().take(i - 1)),
            " -> "@ == arrow(),
        decreases ls.len() - i,
    {
        let line = ls[i].as_str();
        let ghost lsq = lv.drop_first().take(i as int);
        assert(lsq.drop_last() =~= lv.drop_first().take(i - 1));
        assert(lsq.last() == line@);
        let n = line.unicode_len();
        if n > 0 {
            match find(line, " -> ") {
                Some(k) => {
                    proof {
                        lemma_find_from(line@, arrow(), 0);
                    }
                    let o = slice(line, 0, k);
                    let w = slice(line, k + 4, n);
                    log.move_file(o, w);
                },
                None => {
                    if n >= 2 && line.get_char(0) == '+' && line.get_char(1) == ' ' {
                        assert(plus().is_prefix_of(line@));
                        log.create_directory(trim_plus_exec(line));
                    } else {
                        assert(!plus().is_prefix_of(line@)) by {
                            if plus().is_prefix_of(line@) {
                                assert(line@[0] == '+' && line@[1] == ' ');
                            }
                        }
                        log.remove_directory(String::from_str(line));
                    }
                },
            }
        }
        i = i + 1;
    }
    assert(lv.drop_first().take(i - 1) =~= lv.drop_first());
    Ok(log)
}

} // verus!
