//! The parsed container log.
//!
//! A container's standard output interleaves arbitrary script output with
//! in-band control lines.  A control line carries a progress value, a phase
//! name, or a terminal state; every other line is kept verbatim as bytes,
//! since script output need not be UTF-8.  A log honours at most one
//! terminal state: a second state line is a protocol violation and is
//! recorded verbatim, not honoured.
//!
//! Rendering the items back to lines and re-parsing yields the same items;
//! this round trip is proved below.

use vstd::prelude::*;
use crate::dec::all_dec_digits;
use crate::dec::dec_digits;
use crate::dec::dec_val;
use crate::dec::is_dec_digit;
use crate::dec::lemma_dec_digits_wf;
use crate::dec::lemma_dec_val_of_digits;
use crate::dec::parse_u64_dec;
use crate::dec::u64_to_dec;
use crate::store_path::append_slice;
use crate::store_path::vec_of_slice;

verus! {

/// ASCII line feed, the line separator.
pub const NL: u8 = 10;

/// The reserved marker prefix `#BUTIDO:`.
pub open spec fn butido_prefix() -> Seq<u8> {
    seq![35u8, 66u8, 85u8, 84u8, 73u8, 68u8, 79u8, 58u8]
}

/// The prefix `#BUTIDO:PROGRESS:` of a progress line.
pub open spec fn progress_prefix() -> Seq<u8> {
    butido_prefix() + seq![80u8, 82u8, 79u8, 71u8, 82u8, 69u8, 83u8, 83u8, 58u8]
}

/// The prefix `#BUTIDO:PHASE:` of a phase line.
pub open spec fn phase_prefix() -> Seq<u8> {
    butido_prefix() + seq![80u8, 72u8, 65u8, 83u8, 69u8, 58u8]
}

/// The exact line `#BUTIDO:STATE:OK`.
pub open spec fn state_ok_line() -> Seq<u8> {
    butido_prefix() + seq![83u8, 84u8, 65u8, 84u8, 69u8, 58u8, 79u8, 75u8]
}

/// The prefix `#BUTIDO:STATE:ERR:` of a failure line.
pub open spec fn state_err_prefix() -> Seq<u8> {
    butido_prefix() + seq![83u8, 84u8, 65u8, 84u8, 69u8, 58u8, 69u8, 82u8, 82u8, 58u8]
}

/// Does `s` begin with `p`?
pub open spec fn is_prefix_of(p: Seq<u8>, s: Seq<u8>) -> bool {
    s.len() >= p.len() && s.subrange(0, p.len() as int) == p
}

/// Does `s` contain no line feed?
pub open spec fn no_nl(s: Seq<u8>) -> bool {
    forall|i: int| 0 <= i < s.len() ==> s[i] != NL
}

/// The lines of `s`: maximal runs between line feeds.  A trailing line feed
/// yields a final empty line; the empty input yields one empty line.
pub open spec fn split_lines(s: Seq<u8>) -> Seq<Seq<u8>>
    decreases s.len(),
{
    if s.len() == 0 {
        seq![Seq::<u8>::empty()]
    } else if s[0] == NL {
        seq![Seq::<u8>::empty()] + split_lines(s.drop_first())
    } else {
        let rest = split_lines(s.drop_first());
        seq![seq![s[0]] + rest[0]] + rest.drop_first()
    }
}

/// The pieces joined back with line feeds between them.
pub open spec fn join_lines(pieces: Seq<Seq<u8>>) -> Seq<u8>
    decreases pieces.len(),
{
    if pieces.len() == 0 {
        Seq::<u8>::empty()
    } else if pieces.len() == 1 {
        pieces[0]
    } else {
        pieces[0] + seq![NL] + join_lines(pieces.drop_first())
    }
}

/// Splitting always yields at least one piece, and no piece holds a line
/// feed.
proof fn lemma_split_lines_wf(s: Seq<u8>)
    ensures
        split_lines(s).len() >= 1,
        forall|k: int|
            0 <= k < split_lines(s).len() ==> no_nl(#[trigger] split_lines(s)[k]),
    decreases s.len(),
{
    if s.len() == 0 {
    } else if s[0] == NL {
        lemma_split_lines_wf(s.drop_first());
        assert forall|k: int|
            0 <= k < split_lines(s).len() implies no_nl(#[trigger] split_lines(s)[k]) by {
            if k >= 1 {
                assert(split_lines(s)[k] == split_lines(s.drop_first())[k - 1]);
            }
        }
    } else {
        lemma_split_lines_wf(s.drop_first());
        let rest = split_lines(s.drop_first());
        assert forall|k: int|
            0 <= k < split_lines(s).len() implies no_nl(#[trigger] split_lines(s)[k]) by {
            if k == 0 {
                assert(split_lines(s)[0] == seq![s[0]] + rest[0]);
                assert(no_nl(rest[0]));
                assert forall|i: int| 0 <= i < split_lines(s)[0].len() implies split_lines(
                    s,
                )[0][i] != NL by {
                    if i >= 1 {
                        assert(split_lines(s)[0][i] == rest[0][i - 1]);
                    }
                }
            } else {
                assert(split_lines(s)[k] == rest[k]);
            }
        }
    }
}

/// Splitting a line-feed-free piece yields exactly that piece.
proof fn lemma_split_single(s: Seq<u8>)
    requires
        no_nl(s),
    ensures
        split_lines(s) == seq![s],
    decreases s.len(),
{
    if s.len() == 0 {
        assert(split_lines(s) =~~= seq![s]);
    } else {
        assert(s[0] != NL);
        assert(no_nl(s.drop_first())) by {
            assert forall|i: int| 0 <= i < s.drop_first().len() implies s.drop_first()[i]
                != NL by {
                assert(s.drop_first()[i] == s[i + 1]);
            }
        }
        lemma_split_single(s.drop_first());
        let rest = split_lines(s.drop_first());
        assert(rest == seq![s.drop_first()]);
        assert(seq![s[0]] + s.drop_first() =~= s);
        assert(split_lines(s) =~~= seq![s]);
    }
}

/// Splitting `a`, a line feed, then `b` splits `a` off whole.
proof fn lemma_split_around_nl(a: Seq<u8>, b: Seq<u8>)
    requires
        no_nl(a),
    ensures
        split_lines(a + seq![NL] + b) == seq![a] + split_lines(b),
    decreases a.len(),
{
    let s = a + seq![NL] + b;
    if a.len() == 0 {
        assert(s[0] == NL);
        assert(s.drop_first() =~= b);
        assert(split_lines(s) =~~= seq![a] + split_lines(b));
    } else {
        assert(s[0] == a[0]);
        assert(s[0] != NL);
        assert(no_nl(a.drop_first())) by {
            assert forall|i: int| 0 <= i < a.drop_first().len() implies a.drop_first()[i]
                != NL by {
                assert(a.drop_first()[i] == a[i + 1]);
            }
        }
        lemma_split_around_nl(a.drop_first(), b);
        assert(s.drop_first() =~= a.drop_first() + seq![NL] + b);
        assert(split_lines(s.drop_first()) == split_lines(a.drop_first() + seq![NL] + b));
        let rest = split_lines(s.drop_first());
        assert(rest == seq![a.drop_first()] + split_lines(b));
        assert(rest[0] == a.drop_first());
        assert(seq![s[0]] + rest[0] =~= a);
        assert(rest.drop_first() =~~= split_lines(b));
        assert(split_lines(s) =~~= seq![a] + split_lines(b));
    }
}

/// Joining pieces without line feeds and splitting again is the identity.
proof fn lemma_split_join(pieces: Seq<Seq<u8>>)
    requires
        pieces.len() >= 1,
        forall|k: int| 0 <= k < pieces.len() ==> no_nl(#[trigger] pieces[k]),
    ensures
        split_lines(join_lines(pieces)) == pieces,
    decreases pieces.len(),
{
    if pieces.len() == 1 {
        lemma_split_single(pieces[0]);
        assert(split_lines(join_lines(pieces)) =~~= pieces);
    } else {
        let rest = pieces.drop_first();
        assert(forall|k: int| 0 <= k < rest.len() ==> no_nl(#[trigger] rest[k])) by {
            assert forall|k: int| 0 <= k < rest.len() implies no_nl(#[trigger] rest[k]) by {
                assert(rest[k] == pieces[k + 1]);
            }
        }
        lemma_split_join(rest);
        lemma_split_around_nl(pieces[0], join_lines(rest));
        assert(split_lines(join_lines(pieces)) =~~= pieces);
    }
}

/// Joining one more piece appends a separator and the piece.
proof fn lemma_join_push(pieces: Seq<Seq<u8>>, x: Seq<u8>)
    ensures
        pieces.len() == 0 ==> join_lines(pieces.push(x)) == x,
        pieces.len() >= 1 ==> join_lines(pieces.push(x)) == join_lines(pieces) + seq![NL] + x,
    decreases pieces.len(),
{
    let p = pieces.push(x);
    if pieces.len() == 0 {
        assert(p.len() == 1);
        assert(join_lines(p) == p[0]);
        assert(p[0] == x);
    } else if pieces.len() == 1 {
        assert(p.len() == 2);
        assert(p.drop_first() =~= seq![x]);
        assert(join_lines(p.drop_first()) == x);
        assert(join_lines(p) == p[0] + seq![NL] + x);
        assert(p[0] == pieces[0]);
        assert(join_lines(pieces) == pieces[0]);
    } else {
        lemma_join_push(pieces.drop_first(), x);
        assert(p.drop_first() =~= pieces.drop_first().push(x));
        assert(join_lines(p) == p[0] + seq![NL] + join_lines(pieces.drop_first().push(x)));
        assert(join_lines(pieces.drop_first().push(x)) == join_lines(pieces.drop_first())
            + seq![NL] + x);
        assert(p[0] == pieces[0]);
        assert(join_lines(p) =~= join_lines(pieces) + seq![NL] + x);
        assert(join_lines(p) == join_lines(pieces) + seq![NL] + x);
    }
}

/// Splits `log` into its lines.
fn split_lines_exec(log: &[u8]) -> (r: Vec<Vec<u8>>)
    ensures
        r.deep_view() == split_lines(log@),
{
    let n = log.len();
    let mut out: Vec<Vec<u8>> = Vec::new();
    let mut cur: Vec<u8> = Vec::new();
    let mut i: usize = 0;
    proof {
        lemma_split_lines_wf(log@);
        assert(log@.skip(0) =~= log@);
        assert(out.deep_view() =~~= Seq::<Seq<u8>>::empty());
        assert(split_lines(log@) =~~= out.deep_view() + seq![cur@ + split_lines(log@.skip(0))[0]]
            + split_lines(log@.skip(0)).drop_first());
    }
    while i < n
        invariant
            0 <= i <= n,
            n == log@.len(),
            split_lines(log@) =~~= out.deep_view() + seq![cur@ + split_lines(log@.skip(
                i as int,
            ))[0]] + split_lines(log@.skip(i as int)).drop_first(),
        decreases n - i,
    {
        let ghost s_i = log@.skip(i as int);
        let ghost s_n = log@.skip(i + 1);
        proof {
            lemma_split_lines_wf(s_n);
            assert(s_i.len() > 0);
            assert(s_i[0] == log@[i as int]);
            assert(s_i.drop_first() =~= s_n);
            assert(split_lines(s_i.drop_first()) == split_lines(s_n));
        }
        let b = log[i];
        if b == NL {
            proof {
                assert(split_lines(s_i) == seq![Seq::<u8>::empty()] + split_lines(s_n));
                assert(split_lines(s_i)[0] == Seq::<u8>::empty());
                assert(split_lines(s_i).drop_first() =~~= split_lines(s_n));
            }
            let ghost out_old = out.deep_view();
            let ghost cur_old = cur@;
            out.push(cur);
            cur = Vec::new();
            proof {
                assert(out.deep_view() =~~= out_old.push(cur_old));
                assert(out_old + seq![cur_old + split_lines(s_i)[0]] + split_lines(
                    s_i,
                ).drop_first() =~~= out.deep_view() + seq![cur@ + split_lines(s_n)[0]]
                    + split_lines(s_n).drop_first());
                assert(split_lines(log@) =~~= out.deep_view() + seq![cur@ + split_lines(s_n)[0]]
                    + split_lines(s_n).drop_first());
            }
        } else {
            let ghost cur_old = cur@;
            cur.push(b);
            proof {
                let rest = split_lines(s_n);
                assert(split_lines(s_i) == seq![seq![s_i[0]] + rest[0]] + rest.drop_first());
                assert(split_lines(s_i)[0] == seq![log@[i as int]] + rest[0]);
                assert(split_lines(s_i).drop_first() =~~= rest.drop_first());
                assert(cur@ + rest[0] =~= cur_old + split_lines(s_i)[0]);
                assert(out.deep_view() + seq![cur_old + split_lines(s_i)[0]] + split_lines(
                    s_i,
                ).drop_first() =~~= out.deep_view() + seq![cur@ + rest[0]] + rest.drop_first());
                assert(split_lines(log@) =~~= out.deep_view() + seq![cur@ + split_lines(s_n)[0]]
                    + split_lines(s_n).drop_first());
            }
        }
        i = i + 1;
    }
    proof {
        let s_end = log@.skip(n as int);
        assert(s_end =~= Seq::<u8>::empty());
        assert(split_lines(s_end) == split_lines(Seq::<u8>::empty()));
        assert(split_lines(s_end)[0] == Seq::<u8>::empty());
        assert(cur@ + split_lines(s_end)[0] =~= cur@);
        assert(split_lines(s_end).drop_first() =~~= Seq::<Seq<u8>>::empty());
        assert(split_lines(log@) =~~= out.deep_view() + seq![cur@]);
    }
    let ghost out_old = out.deep_view();
    let ghost cur_old = cur@;
    out.push(cur);
    proof {
        assert(out.deep_view() =~~= out_old.push(cur_old));
        assert(out.deep_view() =~~= split_lines(log@));
    }
    out
}


/// One item of a parsed log, at specification level.
pub enum LogItemView {
    Line(Seq<u8>),
    Progress(u64),
    CurrentPhase(Seq<u8>),
    StateOk,
    StateErr(Seq<u8>),
}

/// One item of a parsed log: a verbatim output line, a progress value, a
/// phase change, or the terminal state.
#[derive(Debug, PartialEq, Eq)]
pub enum LogItem {
    Line(Vec<u8>),
    Progress(u64),
    CurrentPhase(Vec<u8>),
    State(Result<(), Vec<u8>>),
}

impl View for LogItem {
    type V = LogItemView;

    open spec fn view(&self) -> LogItemView {
        match self {
            LogItem::Line(b) => LogItemView::Line(b@),
            LogItem::Progress(u) => LogItemView::Progress(*u),
            LogItem::CurrentPhase(p) => LogItemView::CurrentPhase(p@),
            LogItem::State(st) => match st {
                Ok(_) => LogItemView::StateOk,
                Err(m) => LogItemView::StateErr(m@),
            },
        }
    }
}

/// Is `line` exactly a progress marker, value in range?
pub open spec fn is_progress_line(line: Seq<u8>) -> bool {
    &&& is_prefix_of(progress_prefix(), line)
    &&& line.len() > 17
    &&& all_dec_digits(line.skip(17))
    &&& dec_val(line.skip(17)) <= u64::MAX
}

/// The value a progress line carries.
pub open spec fn progress_of(line: Seq<u8>) -> u64 {
    dec_val(line.skip(17)) as u64
}

/// Is `line` a phase marker with a non-empty name?
pub open spec fn is_phase_line(line: Seq<u8>) -> bool {
    is_prefix_of(phase_prefix(), line) && line.len() > 14
}

/// Is `line` the success marker?
pub open spec fn is_state_ok(line: Seq<u8>) -> bool {
    line == state_ok_line()
}

/// Is `line` a failure marker?
pub open spec fn is_state_err(line: Seq<u8>) -> bool {
    is_prefix_of(state_err_prefix(), line)
}

/// Is `line` a terminal-state marker?
pub open spec fn is_state_line(line: Seq<u8>) -> bool {
    is_state_ok(line) || is_state_err(line)
}

/// The item one line parses to.  After a terminal state has been seen, a
/// further state line is a protocol violation: it is recorded verbatim, not
/// honoured.
pub open spec fn parse_line(line: Seq<u8>, state_seen: bool) -> LogItemView {
    if is_progress_line(line) {
        LogItemView::Progress(progress_of(line))
    } else if is_phase_line(line) {
        LogItemView::CurrentPhase(line.skip(14))
    } else if !state_seen && is_state_ok(line) {
        LogItemView::StateOk
    } else if !state_seen && is_state_err(line) {
        LogItemView::StateErr(line.skip(18))
    } else {
        LogItemView::Line(line)
    }
}

/// The items a list of lines parses to, threading whether a terminal state
/// was seen.
pub open spec fn parse_lines(lines: Seq<Seq<u8>>, state_seen: bool) -> Seq<LogItemView>
    decreases lines.len(),
{
    if lines.len() == 0 {
        Seq::<LogItemView>::empty()
    } else {
        seq![parse_line(lines[0], state_seen)] + parse_lines(
            lines.drop_first(),
            state_seen || is_state_line(lines[0]),
        )
    }
}

/// The items a whole log parses to.  The empty log has no items.
pub open spec fn parse_spec(log: Seq<u8>) -> Seq<LogItemView> {
    if log.len() == 0 {
        Seq::<LogItemView>::empty()
    } else {
        parse_lines(split_lines(log), false)
    }
}

/// The line one item renders to.
pub open spec fn render_item(it: LogItemView) -> Seq<u8> {
    match it {
        LogItemView::Line(b) => b,
        LogItemView::Progress(u) => progress_prefix() + dec_digits(u as nat),
        LogItemView::CurrentPhase(p) => phase_prefix() + p,
        LogItemView::StateOk => state_ok_line(),
        LogItemView::StateErr(m) => state_err_prefix() + m,
    }
}

/// The lines a list of items renders to.
pub open spec fn render_lines(items: Seq<LogItemView>) -> Seq<Seq<u8>> {
    Seq::new(items.len(), |i: int| render_item(items[i]))
}

/// The whole log a list of items renders to.
pub open spec fn render_spec(items: Seq<LogItemView>) -> Seq<u8> {
    if items.len() == 0 {
        Seq::<u8>::empty()
    } else {
        join_lines(render_lines(items))
    }
}

/// The first terminal state among the items, if any.
pub open spec fn success_spec(items: Seq<LogItemView>) -> Option<bool>
    decreases items.len(),
{
    if items.len() == 0 {
        None
    } else {
        match items[0] {
            LogItemView::StateOk => Some(true),
            LogItemView::StateErr(_) => Some(false),
            _ => success_spec(items.drop_first()),
        }
    }
}

/// The marker byte strings, built once per parse or render.
struct Markers {
    progress: Vec<u8>,
    phase: Vec<u8>,
    ok: Vec<u8>,
    err: Vec<u8>,
}

/// Builds the marker byte strings.
fn markers() -> (m: Markers)
    ensures
        m.progress@ == progress_prefix(),
        m.phase@ == phase_prefix(),
        m.ok@ == state_ok_line(),
        m.err@ == state_err_prefix(),
{
    let mut progress = butido_vec();
    progress.push(80);
    progress.push(82);
    progress.push(79);
    progress.push(71);
    progress.push(82);
    progress.push(69);
    progress.push(83);
    progress.push(83);
    progress.push(58);
    let mut phase = butido_vec();
    phase.push(80);
    phase.push(72);
    phase.push(65);
    phase.push(83);
    phase.push(69);
    phase.push(58);
    let mut ok = butido_vec();
    ok.push(83);
    ok.push(84);
    ok.push(65);
    ok.push(84);
    ok.push(69);
    ok.push(58);
    ok.push(79);
    ok.push(75);
    let mut err = butido_vec();
    err.push(83);
    err.push(84);
    err.push(65);
    err.push(84);
    err.push(69);
    err.push(58);
    err.push(69);
    err.push(82);
    err.push(82);
    err.push(58);
    proof {
        assert(progress@ =~= progress_prefix());
        assert(phase@ =~= phase_prefix());
        assert(ok@ =~= state_ok_line());
        assert(err@ =~= state_err_prefix());
    }
    Markers { progress, phase, ok, err }
}

/// Builds the reserved `#BUTIDO:` prefix.
fn butido_vec() -> (v: Vec<u8>)
    ensures
        v@ == butido_prefix(),
{
    let mut v: Vec<u8> = Vec::new();
    v.push(35);
    v.push(66);
    v.push(85);
    v.push(84);
    v.push(73);
    v.push(68);
    v.push(79);
    v.push(58);
    proof {
        assert(v@ =~= butido_prefix());
    }
    v
}

/// Does `line` begin with `prefix`?
fn starts_with(line: &[u8], prefix: &Vec<u8>) -> (r: bool)
    ensures
        r == is_prefix_of(prefix@, line@),
{
    let plen = prefix.len();
    if line.len() < plen {
        return false;
    }
    let mut i: usize = 0;
    while i < plen
        invariant
            0 <= i <= plen,
            plen == prefix@.len() <= line@.len(),
            forall|j: int| 0 <= j < i ==> line@[j] == prefix@[j],
        decreases plen - i,
    {
        if line[i] != prefix[i] {
            proof {
                if is_prefix_of(prefix@, line@) {
                    assert(line@.subrange(0, plen as int)[i as int] == prefix@[i as int]);
                }
            }
            return false;
        }
        i = i + 1;
    }
    proof {
        assert(line@.subrange(0, plen as int) =~= prefix@);
    }
    true
}

/// Parses one line.
fn parse_line_exec(line: &[u8], state_seen: bool, m: &Markers) -> (r: LogItem)
    requires
        m.progress@ == progress_prefix(),
        m.phase@ == phase_prefix(),
        m.ok@ == state_ok_line(),
        m.err@ == state_err_prefix(),
    ensures
        r@ == parse_line(line@, state_seen),
{
    if starts_with(line, &m.progress) && line.len() > 17 {
        let digits = vstd::slice::slice_subrange(line, 17, line.len());
        proof {
            assert(digits@ =~= line@.skip(17));
        }
        match parse_u64_dec(digits) {
            Some(u) => {
                proof {
                    assert(is_progress_line(line@));
                    assert(progress_of(line@) == u);
                }
                return LogItem::Progress(u);
            },
            None => {
                proof {
                    assert(!is_progress_line(line@));
                }
            },
        }
    }
    proof {
        assert(!is_progress_line(line@));
    }
    if starts_with(line, &m.phase) && line.len() > 14 {
        let rest = vstd::slice::slice_subrange(line, 14, line.len());
        proof {
            assert(rest@ =~= line@.skip(14));
        }
        return LogItem::CurrentPhase(vec_of_slice(rest));
    }
    proof {
        assert(!is_phase_line(line@));
    }
    if !state_seen {
        if line.len() == m.ok.len() && starts_with(line, &m.ok) {
            proof {
                assert(line@.subrange(0, m.ok@.len() as int) =~= line@);
                assert(is_state_ok(line@));
            }
            return LogItem::State(Ok(()));
        }
        proof {
            if is_state_ok(line@) {
                assert(line@.subrange(0, state_ok_line().len() as int) =~= state_ok_line());
                assert(false);
            }
        }
        if starts_with(line, &m.err) {
            let rest = vstd::slice::slice_subrange(line, 18, line.len());
            proof {
                assert(rest@ =~= line@.skip(18));
            }
            return LogItem::State(Err(vec_of_slice(rest)));
        }
    }
    LogItem::Line(vec_of_slice(line))
}


/// A parsed container log: the items of one container's standard output.
#[derive(Debug)]
pub struct ParsedLog {
    items: Vec<LogItem>,
}

impl View for ParsedLog {
    type V = Seq<LogItemView>;

    closed spec fn view(&self) -> Seq<LogItemView> {
        Seq::new(self.items@.len() as nat, |i: int| self.items@[i]@)
    }
}

impl ParsedLog {
    /// A log assembled from items, as a test or a renderer builds one.
    pub fn new(items: Vec<LogItem>) -> (r: ParsedLog)
        ensures
            r@.len() == items@.len(),
            forall|i: int| 0 <= i < items@.len() ==> r@[i] == items@[i]@,
    {
        ParsedLog { items }
    }

    /// How many items the log holds.
    pub fn len(&self) -> (r: usize)
        ensures
            r == self@.len(),
    {
        self.items.len()
    }

    /// The items, in the order the container emitted them.
    pub fn items(&self) -> (r: &Vec<LogItem>)
        ensures
            r@.len() == self@.len(),
            forall|i: int| 0 <= i < r@.len() ==> r@[i]@ == self@[i],
    {
        &self.items
    }

    /// Parses a raw log.
    ///
    /// Every line is parsed on its own: the three marker forms become their
    /// items; any other line is kept verbatim, and so is a state line after
    /// the terminal state.
    pub fn build_from(log: &[u8]) -> (r: ParsedLog)
        ensures
            r@ == parse_spec(log@),
            wf_log(r@),
    {
        proof {
            lemma_parse_wf(log@);
        }
        let mut items: Vec<LogItem> = Vec::new();
        if log.len() == 0 {
            let r = ParsedLog { items };
            proof {
                assert(r@ =~= parse_spec(log@));
            }
            return r;
        }
        let lines = split_lines_exec(log);
        let m = markers();
        let n = lines.len();
        let ghost dv = lines.deep_view();
        let mut seen: bool = false;
        let mut k: usize = 0;
        proof {
            assert(dv.skip(0) =~~= dv);
            assert(Seq::new(items@.len() as nat, |i: int| items@[i]@) =~= Seq::<
                LogItemView,
            >::empty());
        }
    while k < n
        invariant
            0 <= k <= n,
            n == lines@.len(),
            dv == lines.deep_view(),
            dv.len() == n,
            m.progress@ == progress_prefix(),
            m.phase@ == phase_prefix(),
            m.ok@ == state_ok_line(),
            m.err@ == state_err_prefix(),
            forall|j: int| 0 <= j < n ==> dv[j] == #[trigger] lines@[j]@,
            parse_lines(dv, false) =~= Seq::new(items@.len() as nat, |i: int| items@[i]@)
                + parse_lines(dv.skip(k as int), seen),
        decreases n - k,
    {
        let line = &lines[k];
        let st_ok = line.len() == m.ok.len() && starts_with(line.as_slice(), &m.ok);
        let st_err = starts_with(line.as_slice(), &m.err);
        proof {
            if is_state_ok(line@) {
                assert(line@.subrange(0, state_ok_line().len() as int) =~= state_ok_line());
            }
            if st_ok {
                assert(line@.subrange(0, m.ok@.len() as int) =~= line@);
            }
            assert(st_ok == is_state_ok(line@));
            assert(st_err == is_state_err(line@));
        }
        let it = parse_line_exec(line.as_slice(), seen, &m);
        let ghost items_old = Seq::new(items@.len() as nat, |i: int| items@[i]@);
        items.push(it);
        proof {
            let s_k = dv.skip(k as int);
            assert(s_k.len() > 0);
            assert(s_k[0] == dv[k as int]);
            assert(dv[k as int] == line@);
            assert(s_k.drop_first() =~~= dv.skip(k + 1));
            assert(parse_lines(s_k, seen) == seq![parse_line(line@, seen)] + parse_lines(
                dv.skip(k + 1),
                seen || is_state_line(line@),
            ));
            assert(Seq::new(items@.len() as nat, |i: int| items@[i]@) =~= items_old.push(it@));
            assert(items_old.push(it@) + parse_lines(dv.skip(k + 1), seen || is_state_line(line@))
                =~= items_old + parse_lines(s_k, seen));
        }
        seen = seen || st_ok || st_err;
        k = k + 1;
    }
    proof {
        assert(dv.skip(n as int) =~~= Seq::<Seq<u8>>::empty());
        assert(parse_lines(dv.skip(n as int), seen) =~= Seq::<LogItemView>::empty());
        assert(parse_lines(dv, false) =~= Seq::new(items@.len() as nat, |i: int| items@[i]@));
    }
    let r = ParsedLog { items };
    proof {
        assert(r@ =~= parse_spec(log@));
    }
    r
    }

    /// Renders the items back to raw log lines.
    pub fn render(&self) -> (r: Vec<u8>)
        ensures
            r@ == render_spec(self@),
    {
        let m = markers();
        let n = self.items.len();
        let mut out: Vec<u8> = Vec::new();
        let mut k: usize = 0;
        proof {
            assert(render_lines(self@.take(0)) =~~= Seq::<Seq<u8>>::empty());
            assert(out@ =~= join_lines(render_lines(self@.take(0))));
        }
        while k < n
            invariant
                0 <= k <= n,
                n == self.items@.len(),
                n == self@.len(),
                m.progress@ == progress_prefix(),
                m.phase@ == phase_prefix(),
                m.ok@ == state_ok_line(),
                m.err@ == state_err_prefix(),
                out@ == join_lines(render_lines(self@.take(k as int))),
            decreases n - k,
        {
            let piece = render_item_exec(&self.items[k], &m);
            let ghost out_old = out@;
            if k > 0 {
                out.push(NL);
            }
            append_slice(&mut out, piece.as_slice());
            proof {
                assert(self.items@[k as int]@ == self@[k as int]);
                assert(piece@ == render_item(self@[k as int]));
                let rl_k = render_lines(self@.take(k as int));
                let rl_k1 = render_lines(self@.take(k + 1));
                assert(rl_k1 =~~= rl_k.push(piece@));
                lemma_join_push(rl_k, piece@);
                assert(rl_k.len() == k);
                if k == 0 {
                    assert(join_lines(rl_k1) == piece@);
                    assert(out@ =~= piece@);
                } else {
                    assert(join_lines(rl_k1) == join_lines(rl_k) + seq![NL] + piece@);
                    assert(out@ =~= out_old + seq![NL] + piece@);
                }
            }
            k = k + 1;
        }
        proof {
            assert(self@.take(n as int) =~~= self@);
            if self@.len() == 0 {
                assert(render_lines(self@) =~~= Seq::<Seq<u8>>::empty());
                assert(out@ =~= render_spec(self@));
            }
        }
        out
    }

    /// The outcome the log reports: the first terminal state, success for
    /// `OK`, failure for `ERR`, or nothing when no terminal state was seen.
    pub fn is_successful(&self) -> (r: Option<bool>)
        ensures
            r == success_spec(self@),
    {
        let n = self.items.len();
        let mut k: usize = 0;
        proof {
            assert(self@.skip(0) =~= self@);
        }
        while k < n
            invariant
                0 <= k <= n,
                n == self.items@.len(),
                n == self@.len(),
                success_spec(self@) == success_spec(self@.skip(k as int)),
            decreases n - k,
        {
            let ghost s_k = self@.skip(k as int);
            proof {
                assert(s_k.len() > 0);
                assert(s_k[0] == self@[k as int]);
                assert(self@[k as int] == self.items@[k as int]@);
                assert(s_k.drop_first() =~= self@.skip(k + 1));
            }
            match &self.items[k] {
                LogItem::State(st) => {
                    match st {
                        Ok(_) => {
                            return Some(true);
                        },
                        Err(_) => {
                            return Some(false);
                        },
                    }
                },
                _ => {},
            }
            k = k + 1;
        }
        proof {
            assert(self@.skip(n as int) =~= Seq::<LogItemView>::empty());
        }
        None
    }
}

/// Renders one item to its line.
fn render_item_exec(it: &LogItem, m: &Markers) -> (v: Vec<u8>)
    requires
        m.progress@ == progress_prefix(),
        m.phase@ == phase_prefix(),
        m.ok@ == state_ok_line(),
        m.err@ == state_err_prefix(),
    ensures
        v@ == render_item(it@),
{
    match it {
        LogItem::Line(b) => vec_of_slice(b.as_slice()),
        LogItem::Progress(u) => {
            let mut v = vec_of_slice(m.progress.as_slice());
            let d = u64_to_dec(*u);
            append_slice(&mut v, d.as_slice());
            v
        },
        LogItem::CurrentPhase(p) => {
            let mut v = vec_of_slice(m.phase.as_slice());
            append_slice(&mut v, p.as_slice());
            v
        },
        LogItem::State(st) => match st {
            Ok(_) => vec_of_slice(m.ok.as_slice()),
            Err(msg) => {
                let mut v = vec_of_slice(m.err.as_slice());
                append_slice(&mut v, msg.as_slice());
                v
            },
        },
    }
}


/// Is the item a terminal state?
pub open spec fn state_item(it: LogItemView) -> bool {
    match it {
        LogItemView::StateOk => true,
        LogItemView::StateErr(_) => true,
        _ => false,
    }
}

/// Does a terminal-state item stand before index `k`?
pub open spec fn state_before(items: Seq<LogItemView>, k: int) -> bool {
    exists|j: int| 0 <= j < k && state_item(#[trigger] items[j])
}

/// Well-formedness of the item at `k`, with `seen0` saying whether a
/// terminal state preceded the sequence itself.
pub open spec fn wf_item_from(items: Seq<LogItemView>, k: int, seen0: bool) -> bool {
    match items[k] {
        LogItemView::Line(b) => {
            &&& no_nl(b)
            &&& !is_progress_line(b)
            &&& !is_phase_line(b)
            &&& (is_state_line(b) ==> seen0 || state_before(items, k))
        },
        LogItemView::Progress(_) => true,
        LogItemView::CurrentPhase(p) => p.len() > 0 && no_nl(p),
        LogItemView::StateOk => !seen0 && !state_before(items, k),
        LogItemView::StateErr(m) => no_nl(m) && !seen0 && !state_before(items, k),
    }
}

/// A well-formed log: what parsing can produce.
///
/// Each line-free invariant holds per item; at most one item is a terminal
/// state, and a verbatim line that looks like a state line only follows a
/// real one.  The single empty verbatim line is excluded: it renders to the
/// empty log, which parses to no items at all.
pub open spec fn wf_log(items: Seq<LogItemView>) -> bool {
    &&& forall|k: int| 0 <= k < items.len() ==> wf_item_from(items, k, false)
    &&& !(items.len() == 1 && items[0] == LogItemView::Line(Seq::<u8>::empty()))
}

/// A terminal-state line is neither a progress nor a phase line, and a
/// progress or phase line is no state line.
proof fn lemma_marker_disjoint(b: Seq<u8>)
    ensures
        is_state_line(b) ==> !is_progress_line(b) && !is_phase_line(b),
        is_progress_line(b) ==> !is_state_line(b),
        is_phase_line(b) ==> !is_state_line(b),
{
    if is_state_ok(b) {
        assert(b[8] == 83);
        if is_progress_line(b) {
            assert(b.subrange(0, 17)[8] == b[8]);
            assert(false);
        }
        if is_phase_line(b) {
            assert(b.subrange(0, 14)[8] == b[8]);
            assert(false);
        }
    }
    if is_state_err(b) {
        assert(b.subrange(0, 18)[8] == b[8]);
        assert(b[8] == 83);
        if is_progress_line(b) {
            assert(b.subrange(0, 17)[8] == b[8]);
            assert(false);
        }
        if is_phase_line(b) {
            assert(b.subrange(0, 14)[8] == b[8]);
            assert(false);
        }
    }
}

/// Parsing well-separated lines yields one well-formed item per line.
proof fn lemma_parse_lines_wf(lines: Seq<Seq<u8>>, seen: bool)
    requires
        forall|k: int| 0 <= k < lines.len() ==> no_nl(#[trigger] lines[k]),
    ensures
        parse_lines(lines, seen).len() == lines.len(),
        forall|k: int|
            0 <= k < lines.len() ==> wf_item_from(parse_lines(lines, seen), k, seen),
    decreases lines.len(),
{
    if lines.len() == 0 {
    } else {
        let line0 = lines[0];
        let it0 = parse_line(line0, seen);
        let seen1 = seen || is_state_line(line0);
        let rest_lines = lines.drop_first();
        assert(forall|k: int| 0 <= k < rest_lines.len() ==> no_nl(#[trigger] rest_lines[k]))
            by {
            assert forall|k: int| 0 <= k < rest_lines.len() implies no_nl(
                #[trigger] rest_lines[k],
            ) by {
                assert(rest_lines[k] == lines[k + 1]);
            }
        }
        lemma_parse_lines_wf(rest_lines, seen1);
        let rest = parse_lines(rest_lines, seen1);
        let items = parse_lines(lines, seen);
        assert(items == seq![it0] + rest);
        lemma_marker_disjoint(line0);
        assert forall|k: int| 0 <= k < lines.len() implies wf_item_from(items, k, seen) by {
            if k == 0 {
                assert(items[0] == it0);
                if is_phase_line(line0) && !is_progress_line(line0) {
                    assert forall|i: int|
                        0 <= i < line0.skip(14).len() implies line0.skip(14)[i] != NL by {
                        assert(line0.skip(14)[i] == line0[i + 14]);
                    }
                }
                if !is_progress_line(line0) && !is_phase_line(line0) && !seen && is_state_err(
                    line0,
                ) && !is_state_ok(line0) {
                    assert forall|i: int|
                        0 <= i < line0.skip(18).len() implies line0.skip(18)[i] != NL by {
                        assert(line0.skip(18)[i] == line0[i + 18]);
                    }
                }
            } else {
                assert(items[k] == rest[k - 1]);
                assert(wf_item_from(rest, k - 1, seen1));
                match rest[k - 1] {
                    LogItemView::Line(b) => {
                        if is_state_line(b) {
                            if seen1 && !seen {
                                assert(is_state_line(line0));
                                assert(state_item(it0));
                                assert(state_item(items[0]));
                                assert(state_before(items, k));
                            }
                            if !seen1 || seen {
                                if state_before(rest, k - 1) {
                                    let j = choose|j: int|
                                        0 <= j < k - 1 && state_item(#[trigger] rest[j]);
                                    assert(state_item(items[j + 1]));
                                    assert(state_before(items, k));
                                }
                            }
                        }
                    },
                    LogItemView::StateOk => {
                        assert(!seen1);
                        assert(!seen);
                        assert forall|j: int| 0 <= j < k implies !state_item(
                            #[trigger] items[j],
                        ) by {
                            if j == 0 {
                                if state_item(it0) {
                                    assert(is_state_line(line0));
                                }
                            } else {
                                assert(items[j] == rest[j - 1]);
                                if state_item(rest[j - 1]) {
                                    assert(state_before(rest, k - 1));
                                }
                            }
                        }
                    },
                    LogItemView::StateErr(_) => {
                        assert(!seen1);
                        assert(!seen);
                        assert forall|j: int| 0 <= j < k implies !state_item(
                            #[trigger] items[j],
                        ) by {
                            if j == 0 {
                                if state_item(it0) {
                                    assert(is_state_line(line0));
                                }
                            } else {
                                assert(items[j] == rest[j - 1]);
                                if state_item(rest[j - 1]) {
                                    assert(state_before(rest, k - 1));
                                }
                            }
                        }
                    },
                    _ => {},
                }
            }
        }
    }
}

/// A split into a single line means the input was that line.
proof fn lemma_split_len1(s: Seq<u8>)
    requires
        split_lines(s).len() == 1,
    ensures
        split_lines(s)[0] == s,
    decreases s.len(),
{
    if s.len() == 0 {
    } else if s[0] == NL {
        lemma_split_lines_wf(s.drop_first());
        assert(false);
    } else {
        let rest = split_lines(s.drop_first());
        lemma_split_lines_wf(s.drop_first());
        assert(rest.drop_first().len() == 0);
        assert(rest.len() == 1);
        lemma_split_len1(s.drop_first());
        assert(rest[0] == s.drop_first());
        assert(split_lines(s)[0] == seq![s[0]] + s.drop_first());
        assert(seq![s[0]] + s.drop_first() =~= s);
    }
}


/// One more index extends the states seen by exactly the item at `k`.
proof fn lemma_state_before_step(items: Seq<LogItemView>, k: int)
    requires
        0 <= k < items.len(),
    ensures
        state_before(items, k + 1) == (state_before(items, k) || state_item(items[k])),
{
    if state_before(items, k + 1) {
        let j = choose|j: int| 0 <= j < k + 1 && state_item(#[trigger] items[j]);
        if j < k {
            assert(state_before(items, k));
        }
    }
    if state_before(items, k) {
        let j = choose|j: int| 0 <= j < k && state_item(#[trigger] items[j]);
        assert(state_item(items[j]));
        assert(state_before(items, k + 1));
    }
    if state_item(items[k]) {
        assert(state_before(items, k + 1));
    }
}

/// A rendered line holds no line feed.
proof fn lemma_render_no_nl(items: Seq<LogItemView>, k: int)
    requires
        0 <= k < items.len(),
        wf_item_from(items, k, false),
    ensures
        no_nl(render_item(items[k])),
{
    match items[k] {
        LogItemView::Line(_) => {},
        LogItemView::Progress(u) => {
            lemma_dec_digits_wf(u as nat);
            let line = progress_prefix() + dec_digits(u as nat);
            assert forall|i: int| 0 <= i < line.len() implies line[i] != NL by {
                if i >= 17 {
                    assert(line[i] == dec_digits(u as nat)[i - 17]);
                    assert(is_dec_digit(dec_digits(u as nat)[i - 17]));
                }
            }
        },
        LogItemView::CurrentPhase(p) => {
            let line = phase_prefix() + p;
            assert forall|i: int| 0 <= i < line.len() implies line[i] != NL by {
                if i >= 14 {
                    assert(line[i] == p[i - 14]);
                }
            }
        },
        LogItemView::StateOk => {},
        LogItemView::StateErr(m) => {
            let line = state_err_prefix() + m;
            assert forall|i: int| 0 <= i < line.len() implies line[i] != NL by {
                if i >= 18 {
                    assert(line[i] == m[i - 18]);
                }
            }
        },
    }
}

/// The line an item renders to parses back to that item, when the states
/// seen so far match the items before it.
proof fn lemma_parse_line_rendered(items: Seq<LogItemView>, k: int)
    requires
        0 <= k < items.len(),
        wf_item_from(items, k, false),
    ensures
        parse_line(render_item(items[k]), state_before(items, k)) == items[k],
        (state_before(items, k) || is_state_line(render_item(items[k]))) == state_before(
            items,
            k + 1,
        ),
    decreases items.len(),
{
    let line = render_item(items[k]);
    lemma_state_before_step(items, k);
    match items[k] {
        LogItemView::Line(b) => {
            if is_state_line(b) {
                assert(state_before(items, k));
            }
        },
        LogItemView::Progress(u) => {
            lemma_dec_digits_wf(u as nat);
            lemma_dec_val_of_digits(u as nat);
            let d = dec_digits(u as nat);
            assert(line.subrange(0, 17) =~= progress_prefix());
            assert(line.len() > 17);
            assert(line.skip(17) =~= d);
            assert(is_progress_line(line));
            assert(progress_of(line) == u);
            lemma_marker_disjoint(line);
        },
        LogItemView::CurrentPhase(p) => {
            assert(line.subrange(0, 14) =~= phase_prefix());
            assert(line.len() > 14);
            assert(is_phase_line(line));
            assert(!is_progress_line(line)) by {
                if is_progress_line(line) {
                    assert(line.subrange(0, 17)[9] == line[9]);
                    assert(line[9] == phase_prefix()[9]);
                    assert(false);
                }
            }
            assert(line.skip(14) =~= p);
            lemma_marker_disjoint(line);
        },
        LogItemView::StateOk => {
            assert(line == state_ok_line());
            assert(line.len() == 16);
            assert(!is_progress_line(line));
            assert(!is_phase_line(line)) by {
                if is_phase_line(line) {
                    assert(line.subrange(0, 14)[8] == line[8]);
                    assert(false);
                }
            }
            assert(is_state_ok(line));
            assert(!state_before(items, k));
        },
        LogItemView::StateErr(m) => {
            assert(line.subrange(0, 18) =~= state_err_prefix());
            assert(line[8] == state_err_prefix()[8]);
            assert(!is_progress_line(line)) by {
                if is_progress_line(line) {
                    assert(line.subrange(0, 17)[8] == line[8]);
                    assert(false);
                }
            }
            assert(!is_phase_line(line)) by {
                if is_phase_line(line) {
                    assert(line.subrange(0, 14)[8] == line[8]);
                    assert(false);
                }
            }
            assert(!is_state_ok(line)) by {
                if line == state_ok_line() {
                    assert(line.len() == 16);
                    assert(false);
                }
            }
            assert(is_state_err(line));
            assert(line.skip(18) =~= m);
            assert(!state_before(items, k));
        },
    }
}

/// Parsing the rendered lines from position `k` on restores the items from
/// `k` on.
proof fn lemma_parse_rendered_suffix(items: Seq<LogItemView>, k: int)
    requires
        0 <= k <= items.len(),
        forall|j: int| 0 <= j < items.len() ==> wf_item_from(items, j, false),
    ensures
        parse_lines(render_lines(items).skip(k), state_before(items, k)) == items.skip(k),
    decreases items.len() - k,
{
    let lines = render_lines(items);
    if k == items.len() {
        assert(lines.skip(k) =~~= Seq::<Seq<u8>>::empty());
        assert(parse_lines(lines.skip(k), state_before(items, k)) =~= items.skip(k));
    } else {
        let lk = lines.skip(k);
        assert(lk.len() > 0);
        assert(lk[0] == lines[k]);
        assert(lines[k] == render_item(items[k]));
        assert(lk.drop_first() =~~= lines.skip(k + 1));
        lemma_parse_line_rendered(items, k);
        lemma_parse_rendered_suffix(items, k + 1);
        let seen_k = state_before(items, k);
        assert(parse_lines(lk, seen_k) == seq![parse_line(lk[0], seen_k)] + parse_lines(
            lk.drop_first(),
            seen_k || is_state_line(lk[0]),
        ));
        assert((seen_k || is_state_line(lk[0])) == state_before(items, k + 1));
        assert(parse_lines(lines.skip(k + 1), state_before(items, k + 1)) == items.skip(k + 1));
        assert(seq![items[k]] + items.skip(k + 1) =~= items.skip(k));
    }
}

/// The round trip: rendering a well-formed log's items back to lines and
/// re-parsing them yields the same item sequence.  Every parsed log is well
/// formed, so what a container's output parsed to can be rendered and read
/// back unchanged.
pub proof fn lemma_render_parse_round_trip(items: Seq<LogItemView>)
    requires
        wf_log(items),
    ensures
        parse_spec(render_spec(items)) == items,
{
    if items.len() == 0 {
        assert(parse_spec(render_spec(items)) =~= items);
    } else {
        let lines = render_lines(items);
        assert(forall|k: int| 0 <= k < lines.len() ==> no_nl(#[trigger] lines[k])) by {
            assert forall|k: int| 0 <= k < lines.len() implies no_nl(#[trigger] lines[k]) by {
                lemma_render_no_nl(items, k);
            }
        }
        lemma_split_join(lines);
        let log = render_spec(items);
        assert(log == join_lines(lines));
        assert(log.len() > 0) by {
            if items.len() == 1 {
                assert(join_lines(lines) == lines[0]);
                assert(lines[0] == render_item(items[0]));
                match items[0] {
                    LogItemView::Line(b) => {
                        assert(!(items[0] == LogItemView::Line(Seq::<u8>::empty())));
                        assert(b.len() > 0);
                    },
                    _ => {},
                }
            } else {
                assert(join_lines(lines) == lines[0] + seq![NL] + join_lines(
                    lines.drop_first(),
                ));
            }
        }
        assert(split_lines(log) == lines);
        lemma_parse_rendered_suffix(items, 0);
        assert(lines.skip(0) =~~= lines);
        assert(items.skip(0) =~= items);
        assert(!state_before(items, 0));
        assert(parse_spec(log) == items);
    }
}

/// What parsing produces is well formed: the round trip above applies to
/// every parsed log.
pub proof fn lemma_parse_wf(log: Seq<u8>)
    ensures
        wf_log(parse_spec(log)),
{
    if log.len() == 0 {
    } else {
        let lines = split_lines(log);
        lemma_split_lines_wf(log);
        lemma_parse_lines_wf(lines, false);
        let items = parse_spec(log);
        assert(items == parse_lines(lines, false));
        if items.len() == 1 && items[0] == LogItemView::Line(Seq::<u8>::empty()) {
            assert(lines.len() == 1);
            lemma_split_len1(log);
            assert(lines[0] == log);
            assert(items[0] == parse_line(log, false)) by {
                assert(parse_lines(lines, false) == seq![parse_line(lines[0], false)]
                    + parse_lines(lines.drop_first(), false || is_state_line(lines[0])));
            }
            match parse_line(log, false) {
                LogItemView::Line(b) => {
                    assert(b == log);
                    assert(log.len() == 0);
                },
                _ => {},
            }
            assert(false);
        }
    }
}

} // verus!
