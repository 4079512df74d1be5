//! Backend A: drives the PipeWire command-line controller. Its listing
//! output is a multi-section status dump; stream records are single
//! lines inside one known section, matched against a fixed pattern that
//! captures a leading numeric id, a name field, a sink reference, and a
//! bracketed volume value.

use vstd::prelude::*;

use crate::audio::{
    control_result, probe_result, AudioBackend, AudioError, BackendTag, CmdOutcome, CmdRequest,
    Runner, Stream, StreamData,
};
use crate::text::{
    capped, copy_range, dec_digits, digit_char, digit_val, digits_val, first_pos, is_digit, is_space,
    is_vol_char, lemma_first_pos, lemma_first_pos_is, lemma_first_pos_none, line_is_lit, lit_at,
    matches_at,
    scan_digits, scan_spaces, scan_vol_chars, skip_digits, skip_spaces, skip_while, space,
    spec_lines, split_lines, string_of, trim_end, trim_end_spec,
};

verus! {

pub struct PipeWireCli;

/// The section of the status dump whose lines are stream records.
pub open spec fn section_header() -> Seq<char> {
    "Sink Inputs:"@
}

/// Marker opening the sink reference of a record line.
pub open spec fn sink_marker() -> Seq<char> {
    "(sink:"@
}

/// Marker opening the bracketed volume value of a record line.
pub open spec fn vol_marker() -> Seq<char> {
    "[vol:"@
}

/// The fixed part of a record line that follows the name field,
/// starting at position `j`: whitespace, the parenthesised sink
/// reference, whitespace, and the bracketed volume value ending the
/// line.
pub open spec fn a_tail_at(l: Seq<char>, j: int) -> bool {
    &&& 0 <= j < l.len()
    &&& is_space(l[j])
    &&& {
        let a = skip_spaces(l, j);
        &&& matches_at(l, sink_marker(), a)
        &&& {
            let c = skip_spaces(l, a + sink_marker().len());
            let d = skip_digits(l, c);
            &&& d > c
            &&& d < l.len()
            &&& l[d] == ')'
            &&& d + 1 < l.len()
            &&& is_space(l[d + 1])
            &&& {
                let f = skip_spaces(l, d + 1);
                &&& matches_at(l, vol_marker(), f)
                &&& {
                    let g = skip_spaces(l, f + vol_marker().len());
                    let k = skip_while(l, (|ch: char| is_vol_char(ch)), g);
                    &&& k > g
                    &&& k == l.len() - 1
                    &&& l[k] == ']'
                }
            }
        }
    }
}

/// The volume token of a record line whose tail starts at `j`.
pub open spec fn a_vol_token(l: Seq<char>, j: int) -> Seq<char> {
    let a = skip_spaces(l, j);
    let c = skip_spaces(l, a + sink_marker().len());
    let d = skip_digits(l, c);
    let f = skip_spaces(l, d + 1);
    let g = skip_spaces(l, f + vol_marker().len());
    l.subrange(g, l.len() - 1)
}

/// Value of the first three fractional digits, in thousandths.
pub open spec fn frac_milli(fp: Seq<char>) -> nat {
    if fp.len() == 0 {
        0
    } else if fp.len() == 1 {
        digit_val(fp[0]) * 100
    } else if fp.len() == 2 {
        digit_val(fp[0]) * 100 + digit_val(fp[1]) * 10
    } else {
        digit_val(fp[0]) * 100 + digit_val(fp[1]) * 10 + digit_val(fp[2])
    }
}

/// Value of a volume token (digits with at most one decimal point, and
/// at least one digit), in thousandths of full volume; fractional
/// digits past the third are ignored.
pub open spec fn vol_token_milli(t: Seq<char>) -> Option<nat> {
    let dot = first_pos(t.len() as int, (|k: int| t[k] == '.'), 0);
    if dot == -1 {
        if t.len() > 0 {
            Some(digits_val(t) * 1000)
        } else {
            None
        }
    } else {
        let ip = t.subrange(0, dot);
        let fp = t.subrange(dot + 1, t.len() as int);
        if first_pos(fp.len() as int, (|k: int| fp[k] == '.'), 0) != -1 {
            None
        } else if ip.len() == 0 && fp.len() == 0 {
            None
        } else {
            Some(digits_val(ip) * 1000 + frac_milli(fp))
        }
    }
}

/// First position from `from` on at which the record-line tail starts.
pub open spec fn a_tail_pos(l: Seq<char>, from: int) -> int {
    first_pos(l.len() as int, (|jj: int| a_tail_at(l, jj)), from)
}

/// What a (trimmed) line inside the target section yields: the stream
/// id, name and volume of a record line, or nothing. A record whose id
/// does not fit or whose volume is not in range yields nothing.
pub open spec fn a_line_match(l: Seq<char>) -> Option<(u32, Seq<char>, u32)> {
    let i0 = skip_spaces(l, 0);
    let i1 = skip_digits(l, i0);
    if i1 <= i0 {
        None
    } else if !(i1 < l.len() && l[i1] == '.') {
        None
    } else if !(i1 + 1 < l.len() && is_space(l[i1 + 1])) {
        None
    } else {
        let i3 = skip_spaces(l, i1 + 1);
        let j = a_tail_pos(l, i3 + 1);
        if j == -1 {
            None
        } else {
            let idv = digits_val(l.subrange(i0, i1));
            let name = l.subrange(i3, j);
            match vol_token_milli(a_vol_token(l, j)) {
                Some(m) => if idv <= u32::MAX && m <= 1000 {
                    Some((idv as u32, name, m as u32))
                } else {
                    None
                },
                None => None,
            }
        }
    }
}

/// The stream a record line yields: mute is not exposed in this
/// section, so it defaults to false.
pub open spec fn a_stream(id: u32, name: Seq<char>, milli: u32) -> StreamData {
    StreamData {
        id: id,
        name: name,
        icon_name: None,
        volume_milli: milli,
        mute: false,
        backend_tag: BackendTag::PipeWire,
    }
}

/// The streams the given lines yield: a line equal to the section
/// header (after trimming) opens the section, a blank line inside it
/// closes it, and every other line inside it is matched against the
/// record pattern; lines that do not match are skipped.
pub open spec fn a_fold(ls: Seq<Seq<char>>, in_section: bool) -> Seq<StreamData>
    decreases ls.len(),
{
    if ls.len() == 0 {
        Seq::empty()
    } else {
        let l = trim_end_spec(ls[0]);
        let rest = ls.drop_first();
        if l == section_header() {
            a_fold(rest, true)
        } else if in_section && l.len() == 0 {
            a_fold(rest, false)
        } else if in_section {
            match a_line_match(l) {
                Some((id, name, m)) => seq![a_stream(id, name, m)] + a_fold(rest, true),
                None => a_fold(rest, true),
            }
        } else {
            a_fold(rest, false)
        }
    }
}

/// The streams the whole status text yields.
pub open spec fn a_parse(text: Seq<char>) -> Seq<StreamData> {
    a_fold(spec_lines(text), false)
}

/// Every stream of the sequence is well formed.
pub open spec fn all_wf(s: Seq<StreamData>) -> bool {
    forall|i: int| 0 <= i < s.len() ==> (#[trigger] s[i]).wf()
}

/// Every stream a status text yields is well formed.
pub proof fn lemma_a_fold_wf(ls: Seq<Seq<char>>, in_section: bool)
    ensures
        all_wf(a_fold(ls, in_section)),
    decreases ls.len(),
{
    if ls.len() > 0 {
        let rest = ls.drop_first();
        lemma_a_fold_wf(rest, true);
        lemma_a_fold_wf(rest, false);
        let l = trim_end_spec(ls[0]);
        if l != section_header() && in_section && l.len() != 0 {
            match a_line_match(l) {
                Some((id, name, m)) => {
                    let s = seq![a_stream(id, name, m)];
                    let tail = a_fold(rest, true);
                    assert(m <= 1000);
                    assert(a_fold(ls, in_section) == s + tail);
                    assert forall|i: int| 0 <= i < (s + tail).len() implies (#[trigger] (s
                        + tail)[i]).wf() by {
                        if i > 0 {
                            assert((s + tail)[i] == tail[i - 1]);
                        }
                    }
                },
                None => {},
            }
        }
    }
}

// ---------------------------------------------------------------------
// Executable matcher
// ---------------------------------------------------------------------

/// Does the fixed record-line tail start at position `j`?
fn tail_at(l: &Vec<char>, j: usize) -> (r: bool)
    ensures
        r == a_tail_at(l@, j as int),
{
    if j >= l.len() {
        return false;
    }
    if !space(l[j]) {
        return false;
    }
    let a = scan_spaces(l, j);
    if !lit_at(l, a, "(sink:") {
        return false;
    }
    let sl = "(sink:".unicode_len();
    let c = scan_spaces(l, a + sl);
    let d = scan_digits(l, c);
    if d <= c {
        return false;
    }
    if d >= l.len() || l[d] != ')' {
        return false;
    }
    if d + 1 >= l.len() || !space(l[d + 1]) {
        return false;
    }
    let f = scan_spaces(l, d + 1);
    if !lit_at(l, f, "[vol:") {
        return false;
    }
    let vl = "[vol:".unicode_len();
    let g = scan_spaces(l, f + vl);
    let k = scan_vol_chars(l, g);
    if k <= g {
        return false;
    }
    if k != l.len() - 1 {
        return false;
    }
    if l[k] != ']' {
        return false;
    }
    true
}

/// Reads the volume token `l[g .. k]`, returning its value in
/// thousandths when it is valid and in range.
fn vol_token_value(l: &Vec<char>, g: usize, k: usize) -> (r: Option<u32>)
    requires
        g <= k <= l@.len(),
        forall|x: int| g <= x < k ==> is_vol_char(#[trigger] l@[x]),
    ensures
        ({
            let t = l@.subrange(g as int, k as int);
            match vol_token_milli(t) {
                None => r is None,
                Some(mv) => if mv <= 1000 {
                    r == Some(mv as u32)
                } else {
                    r is None
                },
            }
        }),
{
    let ghost t = l@.subrange(g as int, k as int);
    let ghost pdot = |kk: int| t[kk] == '.';
    // find the first decimal point in the token
    let mut dd = g;
    while dd < k && l[dd] != '.'
        invariant
            g <= dd <= k <= l@.len(),
            forall|x: int| g <= x < dd ==> l@[x] != '.',
        decreases k - dd,
    {
        dd = dd + 1;
    }
    proof {
        assert(forall|x: int| 0 <= x < t.len() ==> t[x] == l@[g + x]);
    }
    if dd == k {
        // no decimal point: a plain run of digits
        proof {
            assert(forall|x: int| 0 <= x < t.len() ==> !(#[trigger] pdot(x)));
            lemma_first_pos_none(t.len() as int, pdot, 0);
        }
        if g == k {
            return None;
        }
        proof {
            assert(forall|x: int| g <= x < k ==> is_digit(#[trigger] l@[x]));
        }
        let v = crate::text::parse_digits_capped(l, g, k, 1001);
        proof {
            assert(v == capped(digits_val(t), 1001));
            if digits_val(t) >= 2 {
                assert(digits_val(t) * 1000 >= 2 * 1000);
            }
        }
        if v == 0 {
            return Some(0);
        }
        if v == 1 {
            return Some(1000);
        }
        return None;
    }
    proof {
        assert(pdot(dd - g));
        lemma_first_pos_is(t.len() as int, pdot, 0, dd - g);
    }
    // a second decimal point makes the token invalid
    let mut d2 = dd + 1;
    while d2 < k && l[d2] != '.'
        invariant
            dd + 1 <= d2 <= k <= l@.len(),
            forall|x: int| dd + 1 <= x < d2 ==> l@[x] != '.',
        decreases k - d2,
    {
        d2 = d2 + 1;
    }
    let ghost fp = t.subrange(dd - g + 1, t.len() as int);
    let ghost pdot2 = |kk: int| fp[kk] == '.';
    proof {
        assert(forall|x: int| 0 <= x < fp.len() ==> fp[x] == l@[dd + 1 + x]);
    }
    if d2 < k {
        proof {
            assert(pdot2(d2 - dd - 1));
            if first_pos(fp.len() as int, pdot2, 0) == -1 {
                lemma_first_pos(fp.len() as int, pdot2, 0);
            }
        }
        return None;
    }
    proof {
        assert(forall|x: int| 0 <= x < fp.len() ==> !(#[trigger] pdot2(x)));
        lemma_first_pos_none(fp.len() as int, pdot2, 0);
    }
    if g == dd && dd + 1 == k {
        // a bare decimal point has no digits
        return None;
    }
    let ghost ip = t.subrange(0, dd - g);
    proof {
        assert(forall|x: int| 0 <= x < ip.len() ==> ip[x] == l@[g + x]);
        assert(ip =~= l@.subrange(g as int, dd as int));
        assert(fp =~= l@.subrange(dd + 1, k as int));
        assert(forall|x: int| g <= x < dd ==> is_digit(#[trigger] l@[x]));
        assert(forall|x: int| dd + 1 <= x < k ==> is_digit(#[trigger] l@[x]));
    }
    let ipv = crate::text::parse_digits_capped(l, g, dd, 2);
    // fractional part: the first three digits, in thousandths
    let f1: u32 = if dd + 1 < k {
        crate::text::char_digit(l[dd + 1])
    } else {
        0
    };
    let f2: u32 = if k - dd > 2 {
        crate::text::char_digit(l[dd + 2])
    } else {
        0
    };
    let f3: u32 = if k - dd > 3 {
        crate::text::char_digit(l[dd + 3])
    } else {
        0
    };
    let fv: u32 = f1 * 100 + f2 * 10 + f3;
    proof {
        assert(fv == frac_milli(fp));
        let iv = digits_val(ip);
        assert(ipv == capped(iv, 2));
        if iv >= 2 {
            assert(iv * 1000 >= 2 * 1000);
        }
    }
    if ipv >= 2 {
        return None;
    }
    let m = ipv as u32 * 1000 + fv;
    if m > 1000 {
        return None;
    }
    Some(m)
}

/// Finds the first start of a record-line tail at or after `from`.
#[verifier::loop_isolation(false)]
fn find_tail(l: &Vec<char>, from: usize) -> (r: Option<usize>)
    requires
        1 <= from <= l@.len(),
    ensures
        ({
            let j = a_tail_pos(l@, from as int);
            match r {
                None => j == -1,
                Some(jj) => j == jj && from <= jj < l@.len() && a_tail_at(l@, jj as int),
            }
        }),
{
    let ghost lv = l@;
    let ghost ptail = |jj: int| a_tail_at(lv, jj);
    let mut j = from;
    while j < l.len()
        invariant
            from <= j <= l@.len(),
            lv == l@,
            forall|x: int| from <= x < j ==> !(#[trigger] ptail(x)),
        decreases l@.len() - j,
    {
        if tail_at(l, j) {
            proof {
                assert(ptail(j as int));
                lemma_first_pos_is(l@.len() as int, ptail, from as int, j as int);
            }
            return Some(j);
        }
        proof {
            assert(!ptail(j as int));
        }
        j = j + 1;
    }
    proof {
        lemma_first_pos_none(l@.len() as int, ptail, from as int);
    }
    None
}

/// Matches one (trimmed) line against the record pattern.
pub fn match_record_line(l: &Vec<char>) -> (r: Option<(u32, Vec<char>, u32)>)
    ensures
        ({
            let m = a_line_match(l@);
            match r {
                None => m is None,
                Some((id, name, vol)) => m == Some((id, name@, vol)),
            }
        }),
{
    let i0 = scan_spaces(l, 0);
    let i1 = scan_digits(l, i0);
    if i1 <= i0 {
        return None;
    }
    if i1 >= l.len() || l[i1] != '.' {
        return None;
    }
    if i1 + 1 >= l.len() || !space(l[i1 + 1]) {
        return None;
    }
    let i3 = scan_spaces(l, i1 + 1);
    if i3 >= l.len() {
        return None;
    }
    let j = match find_tail(l, i3 + 1) {
        Some(j) => j,
        None => {
            return None;
        },
    };
    // id digits
    proof {
        crate::text::lemma_skip_while(l@, (|c: char| is_digit(c)), i0 as int);
        assert forall|x: int| i0 <= x < i1 implies is_digit(#[trigger] l@[x]) by {
            assert((|c: char| is_digit(c))(l@[x]));
        }
    }
    let idv = crate::text::parse_digits_capped(l, i0, i1, 0x1_0000_0000);
    if idv > 0xFFFF_FFFF {
        return None;
    }
    let id = idv as u32;
    // name
    let name = copy_range(l, i3, j);
    // volume token: recompute the tail positions
    proof {
        assert(a_tail_at(l@, j as int));
    }
    let a = scan_spaces(l, j);
    let sl = "(sink:".unicode_len();
    let c = scan_spaces(l, a + sl);
    let d = scan_digits(l, c);
    let f = scan_spaces(l, d + 1);
    let vl = "[vol:".unicode_len();
    let g = scan_spaces(l, f + vl);
    let k = l.len() - 1;
    proof {
        crate::text::lemma_skip_while(l@, (|ch: char| is_vol_char(ch)), g as int);
        assert forall|x: int| g <= x < k implies is_vol_char(#[trigger] l@[x]) by {
            assert((|ch: char| is_vol_char(ch))(l@[x]));
        }
        assert(l@.subrange(g as int, k as int) == a_vol_token(l@, j as int));
    }
    match vol_token_value(l, g, k) {
        Some(m) => Some((id, name, m)),
        None => None,
    }
}

/// Parses one status dump into the streams of the target section.
pub fn parse_status(text: &Vec<char>) -> (r: Vec<Stream>)
    ensures
        r@.map_values(|s: Stream| s@) == a_parse(text@),
{
    let lines = split_lines(text);
    let ghost lseq = lines.deep_view();
    let mut out: Vec<Stream> = Vec::new();
    let mut in_sec = false;
    let mut i: usize = 0;
    proof {
        assert(lseq.skip(0) =~= lseq);
        assert(out@.map_values(|s: Stream| s@) + a_fold(lseq, false) =~= a_fold(lseq, false));
    }
    while i < lines.len()
        invariant
            i <= lines@.len(),
            lseq == lines.deep_view(),
            a_parse(text@) == out@.map_values(|s: Stream| s@) + a_fold(
                lseq.skip(i as int),
                in_sec,
            ),
        decreases lines@.len() - i,
    {
        let ghost pre_map = out@.map_values(|s: Stream| s@);
        let ghost pre_sec = in_sec;
        let mut line = copy_range(&lines[i], 0, lines[i].len());
        proof {
            assert(lines@[i as int].deep_view() =~= lines@[i as int]@);
            assert(line@ =~= lines@[i as int]@);
            assert(lseq.skip(i as int)[0] == lseq[i as int]);
            assert(lseq.skip(i as int).drop_first() =~= lseq.skip(i + 1));
        }
        trim_end(&mut line);
        let ghost tl = trim_end_spec(lseq[i as int]);
        if line_is_lit(&line, "Sink Inputs:") {
            in_sec = true;
        } else if in_sec && line.len() == 0 {
            in_sec = false;
        } else if in_sec {
            match match_record_line(&line) {
                Some((id, name, m)) => {
                    let s = Stream {
                        id: id,
                        name: string_of(&name),
                        icon_name: None,
                        volume_milli: m,
                        mute: false,
                        backend_tag: BackendTag::PipeWire,
                    };
                    proof {
                        assert(a_line_match(tl) == Some((id, name@, m)));
                        assert(s@ == a_stream(id, name@, m));
                    }
                    out.push(s);
                    proof {
                        assert(out@.map_values(|s2: Stream| s2@) =~= pre_map.push(
                            a_stream(id, name@, m),
                        ));
                        assert(pre_map + (seq![a_stream(id, name@, m)] + a_fold(
                            lseq.skip(i + 1),
                            true,
                        )) =~= pre_map.push(a_stream(id, name@, m)) + a_fold(
                            lseq.skip(i + 1),
                            true,
                        ));
                    }
                },
                None => {},
            }
        }
        i = i + 1;
    }
    proof {
        assert(lseq.skip(i as int) =~= Seq::<Seq<char>>::empty());
        assert(out@.map_values(|s: Stream| s@) + a_fold(Seq::empty(), in_sec)
            =~= out@.map_values(|s: Stream| s@));
    }
    out
}

/// "D.DDD": the character form of a volume in thousandths of full
/// volume, with three decimals.
pub open spec fn fraction_chars(m: nat) -> Seq<char> {
    seq![
        digit_char(m / 1000),
        '.',
        digit_char(m / 100 % 10),
        digit_char(m / 10 % 10),
        digit_char(m % 10),
    ]
}

/// Renders a volume in thousandths with three decimals.
fn fraction_string(m: u32) -> (r: String)
    requires
        m <= 1000,
    ensures
        r@ == fraction_chars(m as nat),
{
    let mut s = String::new();
    crate::text::push_char(&mut s, crate::text::char_of_digit(m / 1000));
    crate::text::push_char(&mut s, '.');
    crate::text::push_char(&mut s, crate::text::char_of_digit(m / 100 % 10));
    crate::text::push_char(&mut s, crate::text::char_of_digit(m / 10 % 10));
    crate::text::push_char(&mut s, crate::text::char_of_digit(m % 10));
    proof {
        assert(s@ =~= fraction_chars(m as nat));
    }
    s
}

/// The decimal form of `n`.
fn u32_string(n: u32) -> (r: String)
    ensures
        r@ == dec_digits(n as nat),
{
    let mut s = String::new();
    crate::text::push_u32_decimal(&mut s, n);
    proof {
        assert(Seq::<char>::empty() + dec_digits(n as nat) =~= dec_digits(n as nat));
    }
    s
}

impl PipeWireCli {
    /// The probe command: looks the control binary up on the search
    /// path.
    pub fn probe_request() -> (r: CmdRequest)
        ensures
            r.program@ == "which"@,
            r.args@.len() == 1,
            r.args@[0]@ == "wpctl"@,
    {
        let mut args: Vec<String> = Vec::new();
        args.push(String::from_str("wpctl"));
        CmdRequest { program: String::from_str("which"), args }
    }

    /// The listing command.
    pub fn status_request() -> (r: CmdRequest)
        ensures
            r.program@ == "wpctl"@,
            r.args@.len() == 1,
            r.args@[0]@ == "status"@,
    {
        let mut args: Vec<String> = Vec::new();
        args.push(String::from_str("status"));
        CmdRequest { program: String::from_str("wpctl"), args }
    }

    /// The control command that sets a stream's volume: the requested
    /// volume is clamped to full volume and sent as a fraction with
    /// three decimals.
    pub fn set_volume_request(stream_id: u32, volume_milli: u32) -> (r: CmdRequest)
        ensures
            r.program@ == "wpctl"@,
            r.args@.len() == 3,
            r.args@[0]@ == "set-volume"@,
            r.args@[1]@ == dec_digits(stream_id as nat),
            r.args@[2]@ == fraction_chars(capped(volume_milli as nat, 1000)),
    {
        let v = if volume_milli > 1000 {
            1000
        } else {
            volume_milli
        };
        let mut args: Vec<String> = Vec::new();
        args.push(String::from_str("set-volume"));
        args.push(u32_string(stream_id));
        args.push(fraction_string(v));
        CmdRequest { program: String::from_str("wpctl"), args }
    }

    /// The control command that sets a stream's mute flag, as a binary
    /// token.
    pub fn set_mute_request(stream_id: u32, mute: bool) -> (r: CmdRequest)
        ensures
            r.program@ == "wpctl"@,
            r.args@.len() == 3,
            r.args@[0]@ == "set-mute"@,
            r.args@[1]@ == dec_digits(stream_id as nat),
            r.args@[2]@ == if mute {
                "1"@
            } else {
                "0"@
            },
    {
        let mut args: Vec<String> = Vec::new();
        args.push(String::from_str("set-mute"));
        args.push(u32_string(stream_id));
        args.push(if mute {
            String::from_str("1")
        } else {
            String::from_str("0")
        });
        CmdRequest { program: String::from_str("wpctl"), args }
    }

    /// Is the control binary present on the host? True exactly when the
    /// injected lookup ran and exited successfully.
    pub fn available<R: Runner>(runner: &R) -> bool {
        let req = Self::probe_request();
        let out = runner.run(&req);
        probe_result(&out)
    }

    /// What a listing yields for each possible outcome of the status
    /// command: the parsed streams of the captured output on success,
    /// the failure otherwise.
    pub fn streams_from_output(outcome: CmdOutcome) -> (r: Result<Vec<Stream>, AudioError>)
        ensures
            match outcome {
                CmdOutcome::SpawnFailed(m) => r matches Err(AudioError::CommandFailed(p)) && p@
                    == m@,
                CmdOutcome::Finished { exit_ok, stdout } => if exit_ok {
                    r matches Ok(ss) && ss@.map_values(|s: Stream| s@) == a_parse(stdout@)
                } else {
                    r matches Err(AudioError::CommandFailed(p)) && p@ == "wpctl status failed"@
                },
            },
    {
        match outcome {
            CmdOutcome::SpawnFailed(m) => Err(AudioError::CommandFailed(m)),
            CmdOutcome::Finished { exit_ok, stdout } => {
                if exit_ok {
                    Ok(parse_status(&stdout))
                } else {
                    Err(AudioError::CommandFailed(String::from_str("wpctl status failed")))
                }
            },
        }
    }
}

impl<R: Runner> AudioBackend<R> for PipeWireCli {
    /// Lists the streams the status command reports.
    fn list_streams(&self, runner: &R) -> (r: Result<Vec<Stream>, AudioError>) {
        let req = Self::status_request();
        let out = runner.run(&req);
        let ghost gout = out;
        let r = Self::streams_from_output(out);
        proof {
            match gout {
                CmdOutcome::Finished { exit_ok: true, stdout } => {
                    lemma_a_fold_wf(spec_lines(stdout@), false);
                    if let Ok(ss) = &r {
                        assert forall|i: int| 0 <= i < ss@.len() implies (#[trigger] ss@[i])@.wf()
                        by {
                            assert(ss@.map_values(|s: Stream| s@)[i] == ss@[i]@);
                        }
                    }
                },
                _ => {},
            }
        }
        r
    }

    /// Sets a stream's volume through one control-command run.
    fn set_volume(&self, runner: &R, stream_id: u32, volume_milli: u32) -> Result<
        (),
        AudioError,
    > {
        let req = Self::set_volume_request(stream_id, volume_milli);
        let out = runner.run(&req);
        control_result(out, "wpctl set-volume failed")
    }

    /// Sets a stream's mute flag through one control-command run.
    fn set_mute(&self, runner: &R, stream_id: u32, mute: bool) -> Result<(), AudioError> {
        let req = Self::set_mute_request(stream_id, mute);
        let out = runner.run(&req);
        control_result(out, "wpctl set-mute failed")
    }
}

// ---------------------------------------------------------------------
// Laws
// ---------------------------------------------------------------------

/// Listing is a pure function of the captured text: equal status texts
/// yield equal stream sequences; no hidden state is involved.
pub proof fn lemma_a_parse_deterministic(t1: Seq<char>, t2: Seq<char>)
    requires
        t1 == t2,
    ensures
        a_parse(t1) == a_parse(t2),
{
}

/// The streams the lines of one section yield: each line, trimmed, is
/// matched against the record pattern on its own.
pub open spec fn a_section_streams(sec: Seq<Seq<char>>) -> Seq<StreamData>
    decreases sec.len(),
{
    if sec.len() == 0 {
        Seq::empty()
    } else {
        let rest = a_section_streams(sec.drop_first());
        match a_line_match(trim_end_spec(sec[0])) {
            Some((id, name, m)) => seq![a_stream(id, name, m)] + rest,
            None => rest,
        }
    }
}

/// Outside a section nothing is matched: lines before any section
/// header are skipped whole, even if they fit the record pattern.
pub proof fn lemma_a_prefix_skipped(pre: Seq<Seq<char>>, tail: Seq<Seq<char>>)
    requires
        forall|i: int| 0 <= i < pre.len() ==> trim_end_spec(#[trigger] pre[i])
            != section_header(),
    ensures
        a_fold(pre + tail, false) == a_fold(tail, false),
    decreases pre.len(),
{
    if pre.len() == 0 {
        assert(pre + tail =~= tail);
    } else {
        let ls = pre + tail;
        assert(ls[0] == pre[0]);
        assert(ls.drop_first() =~= pre.drop_first() + tail);
        assert(forall|i: int| 0 <= i < pre.drop_first().len() ==> #[trigger] pre.drop_first()[i]
            == pre[i + 1]);
        lemma_a_prefix_skipped(pre.drop_first(), tail);
    }
}

/// Inside the section each line up to the closing blank is matched on
/// its own: the section's streams come out in order, and the fold goes
/// on behind them.
pub proof fn lemma_a_section_run(sec: Seq<Seq<char>>, tail: Seq<Seq<char>>)
    requires
        forall|i: int| 0 <= i < sec.len() ==> trim_end_spec(#[trigger] sec[i])
            != section_header(),
        forall|i: int| 0 <= i < sec.len() ==> trim_end_spec(#[trigger] sec[i]).len() != 0,
    ensures
        a_fold(sec + tail, true) == a_section_streams(sec) + a_fold(tail, true),
    decreases sec.len(),
{
    if sec.len() == 0 {
        assert(sec + tail =~= tail);
        assert(a_section_streams(sec) + a_fold(tail, true) =~= a_fold(tail, true));
    } else {
        let ls = sec + tail;
        assert(ls[0] == sec[0]);
        assert(ls.drop_first() =~= sec.drop_first() + tail);
        assert(forall|i: int| 0 <= i < sec.drop_first().len() ==> #[trigger] sec.drop_first()[i]
            == sec[i + 1]);
        lemma_a_section_run(sec.drop_first(), tail);
        match a_line_match(trim_end_spec(sec[0])) {
            Some((id, name, m)) => {
                assert(seq![a_stream(id, name, m)] + (a_section_streams(sec.drop_first())
                    + a_fold(tail, true)) =~= (seq![a_stream(id, name, m)] + a_section_streams(
                    sec.drop_first(),
                )) + a_fold(tail, true));
            },
            None => {},
        }
    }
}

/// One complete section: matching is gated by the section. Whatever
/// stands before the header or after the closing blank contributes
/// nothing, pattern-shaped or not; the result is exactly the streams
/// of the section's own lines.
pub proof fn lemma_a_single_section(
    pre: Seq<Seq<char>>,
    hl: Seq<char>,
    sec: Seq<Seq<char>>,
    bl: Seq<char>,
    rest: Seq<Seq<char>>,
)
    requires
        forall|i: int| 0 <= i < pre.len() ==> trim_end_spec(#[trigger] pre[i])
            != section_header(),
        trim_end_spec(hl) == section_header(),
        forall|i: int| 0 <= i < sec.len() ==> trim_end_spec(#[trigger] sec[i])
            != section_header(),
        forall|i: int| 0 <= i < sec.len() ==> trim_end_spec(#[trigger] sec[i]).len() != 0,
        trim_end_spec(bl).len() == 0,
        forall|i: int| 0 <= i < rest.len() ==> trim_end_spec(#[trigger] rest[i])
            != section_header(),
    ensures
        a_fold(pre + seq![hl] + sec + seq![bl] + rest, false) == a_section_streams(sec),
{
    let t3 = seq![bl] + rest;
    let t2 = sec + t3;
    let t1 = seq![hl] + t2;
    assert(pre + seq![hl] + sec + seq![bl] + rest =~= pre + t1);
    lemma_a_prefix_skipped(pre, t1);
    assert(t1[0] == hl);
    assert(t1.drop_first() =~= t2);
    assert(a_fold(t1, false) == a_fold(t2, true));
    lemma_a_section_run(sec, t3);
    reveal_strlit("Sink Inputs:");
    assert(trim_end_spec(bl) != section_header());
    assert(t3[0] == bl);
    assert(t3.drop_first() =~= rest);
    assert(a_fold(t3, true) == a_fold(rest, false));
    lemma_a_prefix_skipped(rest, Seq::empty());
    assert(rest + Seq::<Seq<char>>::empty() =~= rest);
    assert(a_fold(Seq::empty(), false) =~= Seq::<StreamData>::empty());
    assert(a_section_streams(sec) + Seq::<StreamData>::empty() =~= a_section_streams(sec));
}

/// A section containing no matching lines yields an empty sequence;
/// unmatched lines inside the section are skipped, never an error.
pub proof fn lemma_a_section_without_matches(sec: Seq<Seq<char>>)
    requires
        forall|i: int| 0 <= i < sec.len() ==> a_line_match(trim_end_spec(#[trigger] sec[i]))
            is None,
    ensures
        a_section_streams(sec) == Seq::<StreamData>::empty(),
    decreases sec.len(),
{
    if sec.len() > 0 {
        assert(forall|i: int| 0 <= i < sec.drop_first().len() ==> #[trigger] sec.drop_first()[i]
            == sec[i + 1]);
        lemma_a_section_without_matches(sec.drop_first());
    }
}

/// Round trip of the fractional formatting: the volume token the
/// volume command sends reads back to exactly the volume sent.
pub proof fn lemma_fraction_round_trip(m: u32)
    requires
        m <= 1000,
    ensures
        vol_token_milli(fraction_chars(m as nat)) == Some(m as nat),
{
    let mn = m as nat;
    let t = fraction_chars(mn);
    let pdot = |k: int| t[k] == '.';
    crate::text::lemma_digit_char_val(mn / 1000);
    crate::text::lemma_digit_char_val(mn / 100 % 10);
    crate::text::lemma_digit_char_val(mn / 10 % 10);
    crate::text::lemma_digit_char_val(mn % 10);
    assert(t.len() == 5);
    assert(!pdot(0));
    assert(pdot(1));
    lemma_first_pos_is(5, pdot, 0, 1);
    let ip = t.subrange(0, 1);
    let fp = t.subrange(2, 5);
    let pdot2 = |k: int| fp[k] == '.';
    assert forall|k: int| 0 <= k < 3 implies !(#[trigger] pdot2(k)) by {
        assert(fp[k] == t[k + 2]);
    }
    lemma_first_pos_none(3, pdot2, 0);
    assert(digits_val(ip) == mn / 1000) by {
        assert(ip.drop_last() =~= Seq::<char>::empty());
        assert(digits_val(Seq::<char>::empty()) == 0);
        assert(ip.last() == t[0]);
        assert(t[0] == digit_char(mn / 1000));
        assert(digits_val(ip) == digits_val(ip.drop_last()) * 10 + digit_val(ip.last()));
    }
    assert(frac_milli(fp) == (mn / 100 % 10) * 100 + (mn / 10 % 10) * 10 + mn % 10);
    assert(mn / 1000 * 1000 + ((mn / 100 % 10) * 100 + (mn / 10 % 10) * 10 + mn % 10) == mn) by {
        if m == 1000 {
            assert(mn / 1000 == 1 && mn / 100 % 10 == 0 && mn / 10 % 10 == 0 && mn % 10 == 0);
        } else {
            assert(mn / 1000 * 1000 + ((mn / 100 % 10) * 100 + (mn / 10 % 10) * 10 + mn % 10)
                == mn) by (nonlinear_arith)
                requires
                    mn < 1000,
            ;
        }
    }
}

} // verus!

