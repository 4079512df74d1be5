//! Backend B: drives the PulseAudio command-line controller. Its
//! listing output is a sequence of free-form records, each introduced
//! by a header line carrying a numeric id; the following lines may
//! carry, in no guaranteed order, a quoted application name, a
//! percentage volume and a yes/no mute token. The parser is a small
//! state machine over one in-progress record, flushed on the next
//! header or at end of input, and only when both name and volume were
//! resolved.

use vstd::prelude::*;

use crate::audio::{
    control_result, probe_result, AudioBackend, AudioError, BackendTag, CmdOutcome, CmdRequest,
    Runner, Stream, StreamData,
};
use crate::text::{
    capped, copy_range, dec_digits, digit, digits_val, first_pos, is_digit, lemma_first_pos_is,
    lemma_first_pos_none, lemma_skip_while, lit_at, matches_at, parse_digits_capped, scan_digits,
    scan_spaces, skip_digits, skip_spaces, spec_lines, split_lines, string_of,
};

verus! {

pub struct PulseAudioCli;

/// Marker opening a record header line.
pub open spec fn b_header_marker() -> Seq<char> {
    "Sink Input #"@
}

/// Marker of the application-name attribute.
pub open spec fn b_name_marker() -> Seq<char> {
    "application.name"@
}

/// Marker of the mute token.
pub open spec fn b_mute_marker() -> Seq<char> {
    "Mute:"@
}

/// A record header: the marker at the start of the line, followed by at
/// least one digit.
pub open spec fn b_is_header(l: Seq<char>) -> bool {
    &&& matches_at(l, b_header_marker(), 0)
    &&& b_header_marker().len() < l.len()
    &&& is_digit(l[b_header_marker().len() as int])
}

/// The id a header line carries, if it fits.
pub open spec fn b_header_id(l: Seq<char>) -> Option<u32> {
    let st = b_header_marker().len() as int;
    let en = skip_digits(l, st);
    let v = digits_val(l.subrange(st, en));
    if v <= u32::MAX {
        Some(v as u32)
    } else {
        None
    }
}

/// First double quote at or after `from`.
pub open spec fn quote_pos(l: Seq<char>, from: int) -> int {
    first_pos(l.len() as int, (|k: int| l[k] == '"'), from)
}

/// The name attribute matches at position `p`: the marker, an equals
/// sign between optional spaces, and a non-empty double-quoted value.
pub open spec fn b_name_match_at(l: Seq<char>, p: int) -> bool {
    &&& matches_at(l, b_name_marker(), p)
    &&& {
        let q = skip_spaces(l, p + b_name_marker().len());
        &&& q < l.len()
        &&& l[q] == '='
        &&& {
            let r = skip_spaces(l, q + 1);
            &&& r < l.len()
            &&& l[r] == '"'
            &&& quote_pos(l, r + 1) > r + 1
        }
    }
}

/// The quoted application name the line carries, if any: the first
/// occurrence of the name attribute wins.
pub open spec fn b_name_pos(l: Seq<char>) -> int {
    first_pos(l.len() as int, (|k: int| b_name_match_at(l, k)), 0)
}

pub open spec fn b_name_capture(l: Seq<char>) -> Option<Seq<char>> {
    let p = b_name_pos(l);
    if p == -1 {
        None
    } else {
        let q = skip_spaces(l, p + b_name_marker().len());
        let r = skip_spaces(l, q + 1);
        let e = quote_pos(l, r + 1);
        Some(l.subrange(r + 1, e))
    }
}

/// Start of the digit run that ends right before position `e`.
pub open spec fn run_start(l: Seq<char>, e: int) -> int
    decreases e,
{
    if e > 0 && e <= l.len() && is_digit(l[e - 1]) {
        run_start(l, e - 1)
    } else {
        e
    }
}

/// Position of the first percent sign directly preceded by a digit.
pub open spec fn b_pct_end(l: Seq<char>) -> int {
    first_pos(l.len() as int, (|k: int| l[k] == '%' && k > 0 && is_digit(l[k - 1])), 0)
}

/// The percentage volume the line carries, if any, normalized to
/// thousandths of full volume and clamped to full volume.
pub open spec fn b_vol_capture(l: Seq<char>) -> Option<u32> {
    let e = b_pct_end(l);
    if e == -1 {
        None
    } else {
        let st = run_start(l, e);
        let pct = digits_val(l.subrange(st, e));
        Some(capped(pct * 10, 1000) as u32)
    }
}

/// The mute token matches at position `p`: the marker, then a yes or no
/// after optional spaces.
pub open spec fn b_mute_match_at(l: Seq<char>, p: int) -> bool {
    &&& matches_at(l, b_mute_marker(), p)
    &&& {
        let q = skip_spaces(l, p + b_mute_marker().len());
        matches_at(l, "yes"@, q) || matches_at(l, "no"@, q)
    }
}

/// The mute flag the line carries, if any.
pub open spec fn b_mute_pos(l: Seq<char>) -> int {
    first_pos(l.len() as int, (|k: int| b_mute_match_at(l, k)), 0)
}

pub open spec fn b_mute_capture(l: Seq<char>) -> Option<bool> {
    let p = b_mute_pos(l);
    if p == -1 {
        None
    } else {
        let q = skip_spaces(l, p + b_mute_marker().len());
        Some(matches_at(l, "yes"@, q))
    }
}

/// What a line is to the record machine, decided in this order: a
/// header, a name line, a volume line, a mute line, or nothing.
pub enum BLineKind {
    Header,
    Name,
    Vol,
    Mute,
    Other,
}

pub open spec fn b_classify(l: Seq<char>) -> BLineKind {
    if b_is_header(l) {
        BLineKind::Header
    } else if b_name_capture(l) is Some {
        BLineKind::Name
    } else if b_vol_capture(l) is Some {
        BLineKind::Vol
    } else if b_mute_capture(l) is Some {
        BLineKind::Mute
    } else {
        BLineKind::Other
    }
}

/// The in-progress record: the id of the open record, and whatever
/// name, volume and mute were resolved so far.
pub struct BState {
    pub id: Option<u32>,
    pub name: Option<Seq<char>>,
    pub vol: Option<u32>,
    pub mute: bool,
}

/// Before any header: no record in progress.
pub open spec fn b_initial() -> BState {
    BState { id: None, name: None, vol: None, mute: false }
}

pub open spec fn b_stream(id: u32, name: Seq<char>, milli: u32, mute: bool) -> StreamData {
    StreamData {
        id: id,
        name: name,
        icon_name: None,
        volume_milli: milli,
        mute: mute,
        backend_tag: BackendTag::PulseAudio,
    }
}

/// Flushing the in-progress record: one stream if id, name and volume
/// were all resolved, nothing otherwise.
pub open spec fn b_flush(st: BState) -> Seq<StreamData> {
    match (st.id, st.name, st.vol) {
        (Some(i), Some(n), Some(v)) => seq![b_stream(i, n, v, st.mute)],
        _ => Seq::empty(),
    }
}

/// One line of input: the machine's next state, and what it emits. A
/// header flushes the previous record and opens a new one; a field line
/// overwrites its field, so the last occurrence before the flush wins.
pub open spec fn b_step(st: BState, l: Seq<char>) -> (BState, Seq<StreamData>) {
    match b_classify(l) {
        BLineKind::Header => (
            BState { id: b_header_id(l), name: None, vol: None, mute: false },
            b_flush(st),
        ),
        BLineKind::Name => (
            BState { name: b_name_capture(l), ..st },
            Seq::empty(),
        ),
        BLineKind::Vol => (
            BState { vol: b_vol_capture(l), ..st },
            Seq::empty(),
        ),
        BLineKind::Mute => (
            BState { mute: b_mute_capture(l)->0, ..st },
            Seq::empty(),
        ),
        BLineKind::Other => (st, Seq::empty()),
    }
}

/// Running the machine over the lines, flushing at end of input.
pub open spec fn b_run(ls: Seq<Seq<char>>, st: BState) -> Seq<StreamData>
    decreases ls.len(),
{
    if ls.len() == 0 {
        b_flush(st)
    } else {
        b_step(st, ls[0]).1 + b_run(ls.drop_first(), b_step(st, ls[0]).0)
    }
}

/// The streams the whole listing text yields.
pub open spec fn b_parse(text: Seq<char>) -> Seq<StreamData> {
    b_run(spec_lines(text), b_initial())
}

/// A state whose resolved volume, if any, is normalized.
pub open spec fn b_state_wf(st: BState) -> bool {
    st.vol matches Some(v) ==> v <= 1000
}

/// Every stream of the sequence is well formed.
pub open spec fn b_all_wf(s: Seq<StreamData>) -> bool {
    forall|i: int| 0 <= i < s.len() ==> (#[trigger] s[i]).wf()
}

/// From a well-formed state, every stream the machine emits is well
/// formed.
pub proof fn lemma_b_run_wf(ls: Seq<Seq<char>>, st: BState)
    requires
        b_state_wf(st),
    ensures
        b_all_wf(b_run(ls, st)),
    decreases ls.len(),
{
    if ls.len() > 0 {
        let (st2, emitted) = b_step(st, ls[0]);
        assert(b_state_wf(st2));
        lemma_b_run_wf(ls.drop_first(), st2);
        let rest = b_run(ls.drop_first(), st2);
        assert forall|i: int| 0 <= i < (emitted + rest).len() implies (#[trigger] (emitted
            + rest)[i]).wf() by {
            if i >= emitted.len() {
                assert((emitted + rest)[i] == rest[i - emitted.len()]);
            }
        }
    }
}

// ---------------------------------------------------------------------
// Executable matchers
// ---------------------------------------------------------------------

/// Is the line a record header?
fn is_header(l: &Vec<char>) -> (r: bool)
    ensures
        r == b_is_header(l@),
{
    if !lit_at(l, 0, "Sink Input #") {
        return false;
    }
    let ml = "Sink Input #".unicode_len();
    if ml >= l.len() {
        return false;
    }
    digit(l[ml])
}

/// The id of a header line.
fn header_id(l: &Vec<char>) -> (r: Option<u32>)
    requires
        b_is_header(l@),
    ensures
        r == b_header_id(l@),
{
    let ml = "Sink Input #".unicode_len();
    let en = scan_digits(l, ml);
    proof {
        lemma_skip_while(l@, (|c: char| is_digit(c)), ml as int);
        assert forall|x: int| ml <= x < en implies is_digit(#[trigger] l@[x]) by {
            assert((|c: char| is_digit(c))(l@[x]));
        }
    }
    let v = parse_digits_capped(l, ml, en, 0x1_0000_0000);
    if v > 0xFFFF_FFFF {
        None
    } else {
        Some(v as u32)
    }
}

/// Finds the first double quote at or after `from`.
#[verifier::loop_isolation(false)]
fn find_quote(l: &Vec<char>, from: usize) -> (r: Option<usize>)
    requires
        from <= l@.len(),
    ensures
        ({
            let fp = quote_pos(l@, from as int);
            match r {
                None => fp == -1,
                Some(j) => fp == j && from <= j < l@.len(),
            }
        }),
{
    let ghost lv = l@;
    let ghost pq = |k: int| lv[k] == '"';
    let mut j = from;
    while j < l.len()
        invariant
            from <= j <= l@.len(),
            forall|x: int| from <= x < j ==> !(#[trigger] pq(x)),
        decreases l@.len() - j,
    {
        if l[j] == '"' {
            proof {
                assert(pq(j as int));
                lemma_first_pos_is(lv.len() as int, pq, from as int, j as int);
            }
            return Some(j);
        }
        proof {
            assert(!pq(j as int));
        }
        j = j + 1;
    }
    proof {
        lemma_first_pos_none(lv.len() as int, pq, from as int);
    }
    None
}

/// Does the name attribute match at position `p`?
fn name_match_at(l: &Vec<char>, p: usize) -> (r: bool)
    requires
        p <= l@.len(),
    ensures
        r == b_name_match_at(l@, p as int),
{
    let n = l.len();
    if !lit_at(l, p, "application.name") {
        return false;
    }
    let ml = "application.name".unicode_len();
    let q = scan_spaces(l, p + ml);
    if q >= n || l[q] != '=' {
        return false;
    }
    let r2 = scan_spaces(l, q + 1);
    if r2 >= n || l[r2] != '"' {
        return false;
    }
    match find_quote(l, r2 + 1) {
        Some(e) => e > r2 + 1,
        None => false,
    }
}

/// Finds the first position at which the name attribute matches.
#[verifier::loop_isolation(false)]
fn find_name_attr(l: &Vec<char>) -> (r: Option<usize>)
    ensures
        ({
            let p = b_name_pos(l@);
            match r {
                None => p == -1,
                Some(pp) => p == pp && pp < l@.len() && b_name_match_at(l@, pp as int),
            }
        }),
{
    let ghost lv = l@;
    let ghost pn = |k: int| b_name_match_at(lv, k);
    let mut j: usize = 0;
    while j < l.len()
        invariant
            j <= l@.len(),
            forall|x: int| 0 <= x < j ==> !(#[trigger] pn(x)),
        decreases l@.len() - j,
    {
        if name_match_at(l, j) {
            proof {
                assert(pn(j as int));
                lemma_first_pos_is(lv.len() as int, pn, 0, j as int);
            }
            return Some(j);
        }
        proof {
            assert(!pn(j as int));
        }
        j = j + 1;
    }
    proof {
        lemma_first_pos_none(lv.len() as int, pn, 0);
    }
    None
}

/// The quoted application name the line carries, if any.
fn name_capture(l: &Vec<char>) -> (r: Option<Vec<char>>)
    ensures
        (match r {
            None => b_name_capture(l@) is None,
            Some(n) => b_name_capture(l@) == Some(n@),
        }),
{
    let p = match find_name_attr(l) {
        Some(p) => p,
        None => {
            return None;
        },
    };
    let n = l.len();
    proof {
        assert(n == l@.len());
    }
    let ml = "application.name".unicode_len();
    let q = scan_spaces(l, p + ml);
    let r2 = scan_spaces(l, q + 1);
    match find_quote(l, r2 + 1) {
        Some(e) => Some(copy_range(l, r2 + 1, e)),
        None => {
            proof {
                assert(false);
            }
            None
        },
    }
}

/// The percentage volume the line carries, if any, in thousandths.
#[verifier::loop_isolation(false)]
fn vol_capture(l: &Vec<char>) -> (r: Option<u32>)
    ensures
        r == b_vol_capture(l@),
{
    let ghost lv = l@;
    let ghost pp = |k: int| lv[k] == '%' && k > 0 && is_digit(lv[k - 1]);
    let mut e: usize = 0;
    let mut found = false;
    while e < l.len() && !found
        invariant
            e <= l@.len(),
            found ==> e < l@.len() && pp(e as int),
            forall|x: int| 0 <= x < e ==> !(#[trigger] pp(x)),
        decreases l@.len() - e, (if found { 0int } else { 1int }),
    {
        if l[e] == '%' && e > 0 && digit(l[e - 1]) {
            found = true;
        } else {
            proof {
                assert(!pp(e as int));
            }
            e = e + 1;
        }
    }
    if !found {
        proof {
            lemma_first_pos_none(lv.len() as int, pp, 0);
        }
        return None;
    }
    proof {
        lemma_first_pos_is(lv.len() as int, pp, 0, e as int);
    }
    // walk back over the digit run ending right before the percent sign
    let mut rs = e;
    while rs > 0 && digit(l[rs - 1])
        invariant
            rs <= e <= l@.len(),
            run_start(lv, e as int) == run_start(lv, rs as int),
            forall|x: int| rs <= x < e ==> is_digit(#[trigger] lv[x]),
        decreases rs,
    {
        rs = rs - 1;
    }
    let pct = parse_digits_capped(l, rs, e, 101);
    let m: u32 = if pct > 100 {
        1000
    } else {
        (pct as u32) * 10
    };
    proof {
        let true_pct = digits_val(lv.subrange(run_start(lv, e as int), e as int));
        assert(pct == capped(true_pct, 101));
        if true_pct > 100 {
            assert(true_pct * 10 >= 101 * 10);
        }
        assert(m == capped(true_pct * 10, 1000));
    }
    Some(m)
}

/// Does the mute token match at position `p`?
fn mute_match_at(l: &Vec<char>, p: usize) -> (r: bool)
    requires
        p <= l@.len(),
    ensures
        r == b_mute_match_at(l@, p as int),
{
    let n = l.len();
    if !lit_at(l, p, "Mute:") {
        return false;
    }
    proof {
        assert(n == l@.len());
    }
    let ml = "Mute:".unicode_len();
    let q = scan_spaces(l, p + ml);
    let y = lit_at(l, q, "yes");
    let no = lit_at(l, q, "no");
    y || no
}

/// The mute flag the line carries, if any.
#[verifier::loop_isolation(false)]
fn mute_capture(l: &Vec<char>) -> (r: Option<bool>)
    ensures
        r == b_mute_capture(l@),
{
    let ghost lv = l@;
    let ghost pm = |k: int| b_mute_match_at(lv, k);
    let mut j: usize = 0;
    while j < l.len()
        invariant
            j <= l@.len(),
            forall|x: int| 0 <= x < j ==> !(#[trigger] pm(x)),
        decreases l@.len() - j,
    {
        if mute_match_at(l, j) {
            proof {
                assert(pm(j as int));
                lemma_first_pos_is(lv.len() as int, pm, 0, j as int);
            }
            let n = l.len();
            proof {
                assert(n == l@.len());
            }
            let ml = "Mute:".unicode_len();
            let q = scan_spaces(l, j + ml);
            return Some(lit_at(l, q, "yes"));
        }
        proof {
            assert(!pm(j as int));
        }
        j = j + 1;
    }
    proof {
        lemma_first_pos_none(lv.len() as int, pm, 0);
    }
    None
}

/// The view of an in-progress exec record.
pub open spec fn rec_state(
    id: Option<u32>,
    name: Option<Vec<char>>,
    vol: Option<u32>,
    mute: bool,
) -> BState {
    BState {
        id: id,
        name: (match name {
            Some(n) => Some(n@),
            None => None,
        }),
        vol: vol,
        mute: mute,
    }
}

/// Flushes the in-progress record into `out`, as [`b_flush`] describes.
fn flush_into(
    out: &mut Vec<Stream>,
    id: &Option<u32>,
    name: &Option<Vec<char>>,
    vol: &Option<u32>,
    mute: bool,
)
    ensures
        final(out)@.map_values(|s: Stream| s@) == old(out)@.map_values(|s: Stream| s@) + b_flush(
            rec_state(*id, *name, *vol, mute),
        ),
{
    let ghost pre_map = out@.map_values(|s: Stream| s@);
    let ghost st = rec_state(*id, *name, *vol, mute);
    match (id, name, vol) {
        (Some(i), Some(n), Some(v)) => {
            let s = Stream {
                id: *i,
                name: string_of(n),
                icon_name: None,
                volume_milli: *v,
                mute: mute,
                backend_tag: BackendTag::PulseAudio,
            };
            proof {
                assert(s@ == b_stream(*i, n@, *v, mute));
            }
            out.push(s);
            proof {
                assert(out@.map_values(|s2: Stream| s2@) =~= pre_map.push(
                    b_stream(*i, n@, *v, mute),
                ));
                assert(pre_map + b_flush(st) =~= pre_map.push(b_stream(*i, n@, *v, mute)));
            }
        },
        _ => {
            proof {
                assert(b_flush(st) =~= Seq::<StreamData>::empty());
                assert(pre_map + b_flush(st) =~= pre_map);
            }
        },
    }
}

/// Parses one detailed listing into its completed records' streams.
pub fn parse_list_output(text: &Vec<char>) -> (r: Vec<Stream>)
    ensures
        r@.map_values(|s: Stream| s@) == b_parse(text@),
{
    let lines = split_lines(text);
    let ghost lseq = lines.deep_view();
    let mut out: Vec<Stream> = Vec::new();
    let mut cur_id: Option<u32> = None;
    let mut cur_name: Option<Vec<char>> = None;
    let mut cur_vol: Option<u32> = None;
    let mut cur_mute: bool = false;
    let mut i: usize = 0;
    proof {
        assert(lseq.skip(0) =~= lseq);
        assert(out@.map_values(|s: Stream| s@) + b_run(lseq, b_initial()) =~= b_run(
            lseq,
            b_initial(),
        ));
        assert(rec_state(cur_id, cur_name, cur_vol, cur_mute) == b_initial());
    }
    while i < lines.len()
        invariant
            i <= lines@.len(),
            lseq == lines.deep_view(),
            b_parse(text@) == out@.map_values(|s: Stream| s@) + b_run(
                lseq.skip(i as int),
                rec_state(cur_id, cur_name, cur_vol, cur_mute),
            ),
        decreases lines@.len() - i,
    {
        let ghost st = rec_state(cur_id, cur_name, cur_vol, cur_mute);
        let ghost pre_map = out@.map_values(|s: Stream| s@);
        let line = copy_range(&lines[i], 0, lines[i].len());
        proof {
            assert(lines@[i as int].deep_view() =~= lines@[i as int]@);
            assert(line@ =~= lseq[i as int]);
            assert(lseq.skip(i as int)[0] == lseq[i as int]);
            assert(lseq.skip(i as int).drop_first() =~= lseq.skip(i + 1));
        }
        if is_header(&line) {
            flush_into(&mut out, &cur_id, &cur_name, &cur_vol, cur_mute);
            cur_id = header_id(&line);
            cur_name = None;
            cur_vol = None;
            cur_mute = false;
            proof {
                assert(b_step(st, line@) == (
                    rec_state(cur_id, cur_name, cur_vol, cur_mute),
                    b_flush(st),
                ));
                assert((pre_map + b_flush(st)) + b_run(
                    lseq.skip(i + 1),
                    rec_state(cur_id, cur_name, cur_vol, cur_mute),
                ) =~= pre_map + (b_flush(st) + b_run(
                    lseq.skip(i + 1),
                    rec_state(cur_id, cur_name, cur_vol, cur_mute),
                )));
            }
        } else {
            match name_capture(&line) {
                Some(n) => {
                    cur_name = Some(n);
                    proof {
                        assert(b_classify(line@) == BLineKind::Name);
                        assert(pre_map + (Seq::<StreamData>::empty() + b_run(
                            lseq.skip(i + 1),
                            rec_state(cur_id, cur_name, cur_vol, cur_mute),
                        )) =~= pre_map + b_run(
                            lseq.skip(i + 1),
                            rec_state(cur_id, cur_name, cur_vol, cur_mute),
                        ));
                    }
                },
                None => {
                    match vol_capture(&line) {
                        Some(v) => {
                            cur_vol = Some(v);
                            proof {
                                assert(b_classify(line@) == BLineKind::Vol);
                                assert(pre_map + (Seq::<StreamData>::empty() + b_run(
                                    lseq.skip(i + 1),
                                    rec_state(cur_id, cur_name, cur_vol, cur_mute),
                                )) =~= pre_map + b_run(
                                    lseq.skip(i + 1),
                                    rec_state(cur_id, cur_name, cur_vol, cur_mute),
                                ));
                            }
                        },
                        None => {
                            match mute_capture(&line) {
                                Some(b) => {
                                    cur_mute = b;
                                },
                                None => {},
                            }
                            proof {
                                assert(pre_map + (Seq::<StreamData>::empty() + b_run(
                                    lseq.skip(i + 1),
                                    rec_state(cur_id, cur_name, cur_vol, cur_mute),
                                )) =~= pre_map + b_run(
                                    lseq.skip(i + 1),
                                    rec_state(cur_id, cur_name, cur_vol, cur_mute),
                                ));
                            }
                        },
                    }
                },
            }
        }
        i = i + 1;
    }
    proof {
        assert(lseq.skip(i as int) =~= Seq::<Seq<char>>::empty());
    }
    flush_into(&mut out, &cur_id, &cur_name, &cur_vol, cur_mute);
    out
}

/// "NN%": the character form of a rounded integer percentage.
pub open spec fn percent_chars(pct: nat) -> Seq<char> {
    dec_digits(pct).push('%')
}

/// The percentage a volume in thousandths is sent as: rounded to the
/// nearest percent.
pub open spec fn milli_to_pct(milli: nat) -> nat {
    (capped(milli, 1000) + 5) / 10
}

/// Renders the rounded percentage of a volume in thousandths.
fn percent_string(milli: u32) -> (r: String)
    ensures
        r@ == percent_chars(milli_to_pct(milli as nat)),
{
    let v = if milli > 1000 {
        1000
    } else {
        milli
    };
    let pct = (v + 5) / 10;
    let mut s = String::new();
    crate::text::push_u32_decimal(&mut s, pct);
    crate::text::push_char(&mut s, '%');
    proof {
        assert((Seq::<char>::empty() + dec_digits(pct as nat)).push('%') =~= percent_chars(
            pct as nat,
        ));
    }
    s
}

impl PulseAudioCli {
    /// The probe command: looks the control binary up on the search
    /// path.
    pub fn probe_request() -> (r: CmdRequest)
        ensures
            r.program@ == "which"@,
            r.args@.len() == 1,
            r.args@[0]@ == "pactl"@,
    {
        let mut args: Vec<String> = Vec::new();
        args.push(String::from_str("pactl"));
        CmdRequest { program: String::from_str("which"), args }
    }

    /// The listing command.
    pub fn list_request() -> (r: CmdRequest)
        ensures
            r.program@ == "pactl"@,
            r.args@.len() == 2,
            r.args@[0]@ == "list"@,
            r.args@[1]@ == "sink-inputs"@,
    {
        let mut args: Vec<String> = Vec::new();
        args.push(String::from_str("list"));
        args.push(String::from_str("sink-inputs"));
        CmdRequest { program: String::from_str("pactl"), args }
    }

    /// The control command that sets a stream's volume: the requested
    /// volume is clamped to full volume and sent as a rounded integer
    /// percentage.
    pub fn set_volume_request(stream_id: u32, volume_milli: u32) -> (r: CmdRequest)
        ensures
            r.program@ == "pactl"@,
            r.args@.len() == 3,
            r.args@[0]@ == "set-sink-input-volume"@,
            r.args@[1]@ == dec_digits(stream_id as nat),
            r.args@[2]@ == percent_chars(milli_to_pct(volume_milli as nat)),
    {
        let mut args: Vec<String> = Vec::new();
        args.push(String::from_str("set-sink-input-volume"));
        let mut ids = String::new();
        crate::text::push_u32_decimal(&mut ids, stream_id);
        proof {
            assert(Seq::<char>::empty() + dec_digits(stream_id as nat) =~= dec_digits(
                stream_id as nat,
            ));
        }
        args.push(ids);
        args.push(percent_string(volume_milli));
        CmdRequest { program: String::from_str("pactl"), args }
    }

    /// The control command that sets a stream's mute flag, as a binary
    /// token.
    pub fn set_mute_request(stream_id: u32, mute: bool) -> (r: CmdRequest)
        ensures
            r.program@ == "pactl"@,
            r.args@.len() == 3,
            r.args@[0]@ == "set-sink-input-mute"@,
            r.args@[1]@ == dec_digits(stream_id as nat),
            r.args@[2]@ == if mute {
                "1"@
            } else {
                "0"@
            },
    {
        let mut args: Vec<String> = Vec::new();
        args.push(String::from_str("set-sink-input-mute"));
        let mut ids = String::new();
        crate::text::push_u32_decimal(&mut ids, stream_id);
        proof {
            assert(Seq::<char>::empty() + dec_digits(stream_id as nat) =~= dec_digits(
                stream_id as nat,
            ));
        }
        args.push(ids);
        args.push(if mute {
            String::from_str("1")
        } else {
            String::from_str("0")
        });
        CmdRequest { program: String::from_str("pactl"), args }
    }

    /// Is the control binary present on the host? True exactly when the
    /// injected lookup ran and exited successfully.
    pub fn available<R: Runner>(runner: &R) -> bool {
        let req = Self::probe_request();
        let out = runner.run(&req);
        probe_result(&out)
    }

    /// What a listing yields for each possible outcome of the listing
    /// command: the parsed streams of the captured output on success,
    /// the failure otherwise.
    pub fn streams_from_output(outcome: CmdOutcome) -> (r: Result<Vec<Stream>, AudioError>)
        ensures
            match outcome {
                CmdOutcome::SpawnFailed(m) => r matches Err(AudioError::CommandFailed(p)) && p@
                    == m@,
                CmdOutcome::Finished { exit_ok, stdout } => if exit_ok {
                    r matches Ok(ss) && ss@.map_values(|s: Stream| s@) == b_parse(stdout@)
                } else {
                    r matches Err(AudioError::CommandFailed(p)) && p@ == "pactl list failed"@
                },
            },
    {
        match outcome {
            CmdOutcome::SpawnFailed(m) => Err(AudioError::CommandFailed(m)),
            CmdOutcome::Finished { exit_ok, stdout } => {
                if exit_ok {
                    Ok(parse_list_output(&stdout))
                } else {
                    Err(AudioError::CommandFailed(String::from_str("pactl list failed")))
                }
            },
        }
    }
}

impl<R: Runner> AudioBackend<R> for PulseAudioCli {
    /// Lists the streams the detailed listing reports.
    fn list_streams(&self, runner: &R) -> (r: Result<Vec<Stream>, AudioError>) {
        let req = Self::list_request();
        let out = runner.run(&req);
        let ghost gout = out;
        let r = Self::streams_from_output(out);
        proof {
            match gout {
                CmdOutcome::Finished { exit_ok: true, stdout } => {
                    lemma_b_run_wf(spec_lines(stdout@), b_initial());
                    if let Ok(ss) = &r {
                        assert forall|i: int| 0 <= i < ss@.len() implies (#[trigger] ss@[i])@.wf()
                        by {
                            assert(ss@.map_values(|s: Stream| s@)[i] == ss@[i]@);
                        }
                    }
                },
                _ => {},
            }
        }
        r
    }

    /// Sets a stream's volume through one control-command run.
    fn set_volume(&self, runner: &R, stream_id: u32, volume_milli: u32) -> Result<
        (),
        AudioError,
    > {
        let req = Self::set_volume_request(stream_id, volume_milli);
        let out = runner.run(&req);
        control_result(out, "pactl set-volume failed")
    }

    /// Sets a stream's mute flag through one control-command run.
    fn set_mute(&self, runner: &R, stream_id: u32, mute: bool) -> Result<(), AudioError> {
        let req = Self::set_mute_request(stream_id, mute);
        let out = runner.run(&req);
        control_result(out, "pactl set-mute failed")
    }
}

// ---------------------------------------------------------------------
// Laws
// ---------------------------------------------------------------------

/// Listing is a pure function of the captured text: equal listing
/// texts yield equal stream sequences; no hidden state is involved.
pub proof fn lemma_b_parse_deterministic(t1: Seq<char>, t2: Seq<char>)
    requires
        t1 == t2,
    ensures
        b_parse(t1) == b_parse(t2),
{
}

/// The machine's state after running the given lines.
pub open spec fn b_state_after(ls: Seq<Seq<char>>, st: BState) -> BState
    decreases ls.len(),
{
    if ls.len() == 0 {
        st
    } else {
        b_state_after(ls.drop_first(), b_step(st, ls[0]).0)
    }
}

/// What the machine emits while running the given lines, without the
/// final end-of-input flush.
pub open spec fn b_emitted(ls: Seq<Seq<char>>, st: BState) -> Seq<StreamData>
    decreases ls.len(),
{
    if ls.len() == 0 {
        Seq::empty()
    } else {
        b_step(st, ls[0]).1 + b_emitted(ls.drop_first(), b_step(st, ls[0]).0)
    }
}

/// Splitting a run: the whole input's streams are what the first part
/// emits, followed by the run of the rest from the state the first
/// part reached.
pub proof fn lemma_b_run_split(ls: Seq<Seq<char>>, tail: Seq<Seq<char>>, st: BState)
    ensures
        b_run(ls + tail, st) == b_emitted(ls, st) + b_run(tail, b_state_after(ls, st)),
    decreases ls.len(),
{
    if ls.len() == 0 {
        assert(ls + tail =~= tail);
        assert(b_emitted(ls, st) + b_run(tail, st) =~= b_run(tail, st));
    } else {
        let st2 = b_step(st, ls[0]).0;
        let em = b_step(st, ls[0]).1;
        assert((ls + tail)[0] == ls[0]);
        assert((ls + tail).drop_first() =~= ls.drop_first() + tail);
        lemma_b_run_split(ls.drop_first(), tail, st2);
        assert(em + (b_emitted(ls.drop_first(), st2) + b_run(
            tail,
            b_state_after(ls.drop_first(), st2),
        )) =~= (em + b_emitted(ls.drop_first(), st2)) + b_run(
            tail,
            b_state_after(ls.drop_first(), st2),
        ));
    }
}

/// Only a header line emits: a run of non-header lines emits nothing
/// before its flush.
pub proof fn lemma_b_no_header_no_emission(ls: Seq<Seq<char>>, st: BState)
    requires
        forall|i: int| 0 <= i < ls.len() ==> !b_is_header(#[trigger] ls[i]),
    ensures
        b_emitted(ls, st) == Seq::<StreamData>::empty(),
    decreases ls.len(),
{
    if ls.len() > 0 {
        assert(forall|i: int| 0 <= i < ls.drop_first().len() ==> #[trigger] ls.drop_first()[i]
            == ls[i + 1]);
        let st2 = b_step(st, ls[0]).0;
        lemma_b_no_header_no_emission(ls.drop_first(), st2);
        assert(b_step(st, ls[0]).1 =~= Seq::<StreamData>::empty());
        assert(b_step(st, ls[0]).1 + b_emitted(ls.drop_first(), st2)
            =~= Seq::<StreamData>::empty());
    }
}

/// At the next header, or at the end of the input, the in-progress
/// record is flushed: the run of a header-opened segment is the flush
/// of what preceded it, then the flush of the record the segment
/// assembled, then the rest as if freshly started.
pub proof fn lemma_b_flush_at_boundary(seg: Seq<Seq<char>>, tail: Seq<Seq<char>>, st: BState)
    requires
        seg.len() > 0,
        b_is_header(seg[0]),
        forall|i: int| 1 <= i < seg.len() ==> !b_is_header(#[trigger] seg[i]),
        tail.len() > 0 ==> b_is_header(tail[0]),
    ensures
        b_run(seg + tail, st) == b_flush(st) + b_flush(b_state_after(seg, st)) + b_run(
            tail,
            b_initial(),
        ),
{
    lemma_b_run_split(seg, tail, st);
    let st0 = b_step(st, seg[0]).0;
    let mid = seg.drop_first();
    assert(forall|i: int| 0 <= i < mid.len() ==> #[trigger] mid[i] == seg[i + 1]);
    lemma_b_no_header_no_emission(mid, st0);
    // the segment emits exactly the flush of what preceded it
    assert(b_emitted(seg, st) == b_flush(st) + b_emitted(mid, st0));
    assert(b_flush(st) + Seq::<StreamData>::empty() =~= b_flush(st));
    let st_end = b_state_after(seg, st);
    assert(st_end == b_state_after(mid, st0));
    // the rest of the run starts fresh once the record is flushed
    if tail.len() == 0 {
        assert(b_run(tail, st_end) == b_flush(st_end));
        assert(b_flush(b_initial()) =~= Seq::<StreamData>::empty());
        assert(b_run(tail, b_initial()) =~= Seq::<StreamData>::empty());
        assert(b_flush(st) + b_flush(st_end) + b_run(tail, b_initial()) =~= b_flush(st)
            + b_flush(st_end));
    } else {
        let reset = b_step(st_end, tail[0]).0;
        assert(reset == b_step(b_initial(), tail[0]).0);
        assert(b_step(b_initial(), tail[0]).1 =~= Seq::<StreamData>::empty());
        assert(b_run(tail, st_end) == b_flush(st_end) + b_run(tail.drop_first(), reset));
        assert(b_run(tail, b_initial()) =~= b_run(tail.drop_first(), reset));
        assert(b_flush(st) + (b_flush(st_end) + b_run(tail.drop_first(), reset)) =~= (b_flush(st)
            + b_flush(st_end)) + b_run(tail.drop_first(), reset));
    }
}

/// Non-header lines carrying no name leave the name unresolved.
proof fn lemma_b_name_stays_unresolved(ls: Seq<Seq<char>>, st: BState)
    requires
        st.name is None,
        forall|i: int| 0 <= i < ls.len() ==> !b_is_header(#[trigger] ls[i]),
        forall|i: int| 0 <= i < ls.len() ==> b_name_capture(#[trigger] ls[i]) is None,
    ensures
        b_state_after(ls, st).name is None,
    decreases ls.len(),
{
    if ls.len() > 0 {
        assert(forall|i: int| 0 <= i < ls.drop_first().len() ==> #[trigger] ls.drop_first()[i]
            == ls[i + 1]);
        lemma_b_name_stays_unresolved(ls.drop_first(), b_step(st, ls[0]).0);
    }
}

/// Non-header lines carrying no volume leave the volume unresolved.
proof fn lemma_b_vol_stays_unresolved(ls: Seq<Seq<char>>, st: BState)
    requires
        st.vol is None,
        forall|i: int| 0 <= i < ls.len() ==> !b_is_header(#[trigger] ls[i]),
        forall|i: int| 0 <= i < ls.len() ==> b_vol_capture(#[trigger] ls[i]) is None,
    ensures
        b_state_after(ls, st).vol is None,
    decreases ls.len(),
{
    if ls.len() > 0 {
        assert(forall|i: int| 0 <= i < ls.drop_first().len() ==> #[trigger] ls.drop_first()[i]
            == ls[i + 1]);
        lemma_b_vol_stays_unresolved(ls.drop_first(), b_step(st, ls[0]).0);
    }
}

/// A record whose header is seen but whose name line never appears
/// before the next header, or the end of the input, produces no
/// stream: the incomplete record is dropped entirely, never emitted
/// with a defaulted name.
pub proof fn lemma_b_record_without_name_dropped(
    seg: Seq<Seq<char>>,
    tail: Seq<Seq<char>>,
    st: BState,
)
    requires
        seg.len() > 0,
        b_is_header(seg[0]),
        forall|i: int| 1 <= i < seg.len() ==> !b_is_header(#[trigger] seg[i]),
        forall|i: int| 1 <= i < seg.len() ==> b_name_capture(#[trigger] seg[i]) is None,
        tail.len() > 0 ==> b_is_header(tail[0]),
    ensures
        b_run(seg + tail, st) == b_flush(st) + b_run(tail, b_initial()),
{
    lemma_b_flush_at_boundary(seg, tail, st);
    let st0 = b_step(st, seg[0]).0;
    let mid = seg.drop_first();
    assert(forall|i: int| 0 <= i < mid.len() ==> #[trigger] mid[i] == seg[i + 1]);
    lemma_b_name_stays_unresolved(mid, st0);
    let st_end = b_state_after(seg, st);
    assert(st_end == b_state_after(mid, st0));
    assert(b_flush(st_end) =~= Seq::<StreamData>::empty());
    assert(b_flush(st) + Seq::<StreamData>::empty() + b_run(tail, b_initial()) =~= b_flush(st)
        + b_run(tail, b_initial()));
}

/// The same, for a record whose volume line never appears before the
/// next header or the end of the input.
pub proof fn lemma_b_record_without_volume_dropped(
    seg: Seq<Seq<char>>,
    tail: Seq<Seq<char>>,
    st: BState,
)
    requires
        seg.len() > 0,
        b_is_header(seg[0]),
        forall|i: int| 1 <= i < seg.len() ==> !b_is_header(#[trigger] seg[i]),
        forall|i: int| 1 <= i < seg.len() ==> b_vol_capture(#[trigger] seg[i]) is None,
        tail.len() > 0 ==> b_is_header(tail[0]),
    ensures
        b_run(seg + tail, st) == b_flush(st) + b_run(tail, b_initial()),
{
    lemma_b_flush_at_boundary(seg, tail, st);
    let st0 = b_step(st, seg[0]).0;
    let mid = seg.drop_first();
    assert(forall|i: int| 0 <= i < mid.len() ==> #[trigger] mid[i] == seg[i + 1]);
    lemma_b_vol_stays_unresolved(mid, st0);
    let st_end = b_state_after(seg, st);
    assert(st_end == b_state_after(mid, st0));
    assert(b_flush(st_end) =~= Seq::<StreamData>::empty());
    assert(b_flush(st) + Seq::<StreamData>::empty() + b_run(tail, b_initial()) =~= b_flush(st)
        + b_run(tail, b_initial()));
}

/// Lines that are no volume lines (and no headers) leave the resolved
/// volume untouched.
proof fn lemma_b_vol_preserved(ls: Seq<Seq<char>>, st: BState)
    requires
        forall|i: int| 0 <= i < ls.len() ==> !b_is_header(#[trigger] ls[i]),
        forall|i: int| 0 <= i < ls.len() ==> b_classify(#[trigger] ls[i]) != BLineKind::Vol,
    ensures
        b_state_after(ls, st).vol == st.vol,
    decreases ls.len(),
{
    if ls.len() > 0 {
        assert(forall|i: int| 0 <= i < ls.drop_first().len() ==> #[trigger] ls.drop_first()[i]
            == ls[i + 1]);
        lemma_b_vol_preserved(ls.drop_first(), b_step(st, ls[0]).0);
    }
}

/// Lines that are no name lines (and no headers) leave the resolved
/// name untouched.
proof fn lemma_b_name_preserved(ls: Seq<Seq<char>>, st: BState)
    requires
        forall|i: int| 0 <= i < ls.len() ==> !b_is_header(#[trigger] ls[i]),
        forall|i: int| 0 <= i < ls.len() ==> b_classify(#[trigger] ls[i]) != BLineKind::Name,
    ensures
        b_state_after(ls, st).name == st.name,
    decreases ls.len(),
{
    if ls.len() > 0 {
        assert(forall|i: int| 0 <= i < ls.drop_first().len() ==> #[trigger] ls.drop_first()[i]
            == ls[i + 1]);
        lemma_b_name_preserved(ls.drop_first(), b_step(st, ls[0]).0);
    }
}

/// Lines that are no mute lines (and no headers) leave the mute flag
/// untouched.
proof fn lemma_b_mute_preserved(ls: Seq<Seq<char>>, st: BState)
    requires
        forall|i: int| 0 <= i < ls.len() ==> !b_is_header(#[trigger] ls[i]),
        forall|i: int| 0 <= i < ls.len() ==> b_classify(#[trigger] ls[i]) != BLineKind::Mute,
    ensures
        b_state_after(ls, st).mute == st.mute,
    decreases ls.len(),
{
    if ls.len() > 0 {
        assert(forall|i: int| 0 <= i < ls.drop_first().len() ==> #[trigger] ls.drop_first()[i]
            == ls[i + 1]);
        lemma_b_mute_preserved(ls.drop_first(), b_step(st, ls[0]).0);
    }
}

/// Of any number of volume lines in one record, the last before the
/// flush wins: after a run of non-header lines, the record's resolved
/// volume is the last volume line's capture, whatever stood before it.
pub proof fn lemma_b_volume_is_last_capture(ls: Seq<Seq<char>>, st: BState, k: int)
    requires
        forall|i: int| 0 <= i < ls.len() ==> !b_is_header(#[trigger] ls[i]),
        0 <= k < ls.len(),
        b_classify(ls[k]) == BLineKind::Vol,
        forall|i: int| k < i < ls.len() ==> b_classify(#[trigger] ls[i]) != BLineKind::Vol,
    ensures
        b_state_after(ls, st).vol == b_vol_capture(ls[k]),
    decreases k,
{
    let st2 = b_step(st, ls[0]).0;
    let rest = ls.drop_first();
    assert(forall|i: int| 0 <= i < rest.len() ==> #[trigger] rest[i] == ls[i + 1]);
    if k == 0 {
        assert(st2.vol == b_vol_capture(ls[0]));
        lemma_b_vol_preserved(rest, st2);
    } else {
        lemma_b_volume_is_last_capture(rest, st2, k - 1);
    }
}

/// The record's resolved name is the last name line's capture.
pub proof fn lemma_b_name_is_last_capture(ls: Seq<Seq<char>>, st: BState, k: int)
    requires
        forall|i: int| 0 <= i < ls.len() ==> !b_is_header(#[trigger] ls[i]),
        0 <= k < ls.len(),
        b_classify(ls[k]) == BLineKind::Name,
        forall|i: int| k < i < ls.len() ==> b_classify(#[trigger] ls[i]) != BLineKind::Name,
    ensures
        b_state_after(ls, st).name == b_name_capture(ls[k]),
    decreases k,
{
    let st2 = b_step(st, ls[0]).0;
    let rest = ls.drop_first();
    assert(forall|i: int| 0 <= i < rest.len() ==> #[trigger] rest[i] == ls[i + 1]);
    if k == 0 {
        assert(st2.name == b_name_capture(ls[0]));
        lemma_b_name_preserved(rest, st2);
    } else {
        lemma_b_name_is_last_capture(rest, st2, k - 1);
    }
}

/// The record's mute flag is the last mute line's capture: a record
/// whose last mute token is yes flushes with mute set, one whose last
/// token is no flushes unmuted.
pub proof fn lemma_b_mute_is_last_capture(ls: Seq<Seq<char>>, st: BState, k: int)
    requires
        forall|i: int| 0 <= i < ls.len() ==> !b_is_header(#[trigger] ls[i]),
        0 <= k < ls.len(),
        b_classify(ls[k]) == BLineKind::Mute,
        forall|i: int| k < i < ls.len() ==> b_classify(#[trigger] ls[i]) != BLineKind::Mute,
    ensures
        b_state_after(ls, st).mute == b_mute_capture(ls[k])->0,
    decreases k,
{
    let st2 = b_step(st, ls[0]).0;
    let rest = ls.drop_first();
    assert(forall|i: int| 0 <= i < rest.len() ==> #[trigger] rest[i] == ls[i + 1]);
    if k == 0 {
        assert(st2.mute == b_mute_capture(ls[0])->0);
        lemma_b_mute_preserved(rest, st2);
    } else {
        lemma_b_mute_is_last_capture(rest, st2, k - 1);
    }
}

/// Non-header lines never touch the open record's id.
proof fn lemma_b_id_preserved(ls: Seq<Seq<char>>, st: BState)
    requires
        forall|i: int| 0 <= i < ls.len() ==> !b_is_header(#[trigger] ls[i]),
    ensures
        b_state_after(ls, st).id == st.id,
    decreases ls.len(),
{
    if ls.len() > 0 {
        assert(forall|i: int| 0 <= i < ls.drop_first().len() ==> #[trigger] ls.drop_first()[i]
            == ls[i + 1]);
        lemma_b_id_preserved(ls.drop_first(), b_step(st, ls[0]).0);
    }
}

/// A complete record assembles from its field lines in any order,
/// whatever non-matching lines stand between them: a header-opened
/// segment whose name and volume resolve flushes, at the next header
/// or at the end of the input, exactly the one stream built from the
/// header's id and the last name and volume captures.
pub proof fn lemma_b_record_assembled(
    seg: Seq<Seq<char>>,
    tail: Seq<Seq<char>>,
    st: BState,
    kn: int,
    kv: int,
)
    requires
        seg.len() > 0,
        b_is_header(seg[0]),
        b_header_id(seg[0]) is Some,
        forall|i: int| 1 <= i < seg.len() ==> !b_is_header(#[trigger] seg[i]),
        1 <= kn < seg.len(),
        b_classify(seg[kn]) == BLineKind::Name,
        forall|i: int| kn < i < seg.len() ==> b_classify(#[trigger] seg[i]) != BLineKind::Name,
        1 <= kv < seg.len(),
        b_classify(seg[kv]) == BLineKind::Vol,
        forall|i: int| kv < i < seg.len() ==> b_classify(#[trigger] seg[i]) != BLineKind::Vol,
        tail.len() > 0 ==> b_is_header(tail[0]),
    ensures
        b_run(seg + tail, st) == b_flush(st) + seq![
            b_stream(
                b_header_id(seg[0])->0,
                b_name_capture(seg[kn])->0,
                b_vol_capture(seg[kv])->0,
                b_state_after(seg, st).mute,
            ),
        ] + b_run(tail, b_initial()),
{
    lemma_b_flush_at_boundary(seg, tail, st);
    let st0 = b_step(st, seg[0]).0;
    let mid = seg.drop_first();
    assert(forall|i: int| 0 <= i < mid.len() ==> #[trigger] mid[i] == seg[i + 1]);
    lemma_b_id_preserved(mid, st0);
    lemma_b_name_is_last_capture(mid, st0, kn - 1);
    lemma_b_volume_is_last_capture(mid, st0, kv - 1);
    let st_end = b_state_after(seg, st);
    assert(st_end == b_state_after(mid, st0));
    assert(st_end.id == b_header_id(seg[0]));
    assert(st_end.name == b_name_capture(seg[kn]));
    assert(st_end.vol == b_vol_capture(seg[kv]));
    assert(b_flush(st_end) =~= seq![
        b_stream(
            b_header_id(seg[0])->0,
            b_name_capture(seg[kn])->0,
            b_vol_capture(seg[kv])->0,
            st_end.mute,
        ),
    ]);
}

/// Field lines of different kinds assemble the record regardless of
/// their order: both orders reach the same in-progress record, and
/// neither line emits a stream.
pub proof fn lemma_b_field_order_irrelevant(st: BState, l1: Seq<char>, l2: Seq<char>)
    requires
        b_classify(l1) != BLineKind::Header,
        b_classify(l2) != BLineKind::Header,
        b_classify(l1) != b_classify(l2),
    ensures
        b_step(b_step(st, l1).0, l2).0 == b_step(b_step(st, l2).0, l1).0,
        b_step(st, l1).1 == Seq::<StreamData>::empty(),
        b_step(st, l2).1 == Seq::<StreamData>::empty(),
{
}

/// Round trip of the percentage formatting: the digit run the volume
/// command sends reads back as the same percentage, and the volume that
/// percentage stands for differs from the volume sent by at most one
/// percent.
pub proof fn lemma_percent_round_trip(m: u32)
    requires
        m <= 1000,
    ensures
        ({
            let pct = milli_to_pct(m as nat);
            let back = capped(pct * 10, 1000);
            &&& digits_val(dec_digits(pct)) == pct
            &&& back <= m + 10
            &&& m <= back + 10
        }),
{
    crate::text::lemma_dec_digits_val(milli_to_pct(m as nat));
    vstd::arithmetic::div_mod::lemma_fundamental_div_mod((m + 5) as int, 10);
}

} // verus!


