//! The verified canonical codec for the two envelope shapes.
//!
//! This module is the library's formal model of the envelope data
//! contract: a canonical text grammar — fields in their fixed order,
//! strings as raw character runs between quotes, numbers as raw tokens
//! kept verbatim, no inter-token whitespace, no escapes — with a renderer
//! that produces exactly that text and a parser with a two-sided
//! contract: whatever it returns, the input is exactly the canonical text
//! around it, and the canonical text of any well-formed values is
//! accepted and yields exactly those values.  That pair carries the
//! round-trip guarantee: N well-formed records serialize and deserialize
//! to exactly N records, every field verbatim, in order.
//!
//! The codec is deliberately not the client's API-boundary deserializer.
//! The live API speaks general JSON — insignificant whitespace, any field
//! order, string escapes — whose tolerant reading runs through serde's
//! `Deserializer` in the binary, outside what Verus can verify; the
//! parsed values are handed to the verified library as plain data.  This
//! module pins down what the envelopes *are*; the boundary decides only
//! how leniently their JSON spelling is read.

use vstd::prelude::*;

use crate::data::{
    FlowHistoryEnvelope, FlowReading, FlowReadingV, Station, StationListEnvelope, StationV,
};
use crate::numbers::{i32_text, spec_digit_val, spec_int_text};

verus! {

// ---------------------------------------------------------------------
// Well-formedness: what a value must look like to have a canonical text.
// ---------------------------------------------------------------------

/// A text field that can stand between quotes: it contains no quote.
pub open spec fn wf_text(s: Seq<char>) -> bool {
    forall|i: int| 0 <= i < s.len() ==> s[i] != '"'
}

/// A character that may appear in a numeric token.
pub open spec fn is_num_char(c: char) -> bool {
    spec_digit_val(c) is Some || c == '-' || c == '+' || c == '.' || c == 'e' || c == 'E'
}

/// A numeric token kept verbatim: non-empty, numeric characters only.
pub open spec fn wf_num(s: Seq<char>) -> bool {
    s.len() > 0 && forall|i: int| 0 <= i < s.len() ==> is_num_char(#[trigger] s[i])
}

/// A station whose fields can stand in the canonical text.
pub open spec fn wf_station(v: StationV) -> bool {
    &&& wf_text(v.province)
    &&& wf_text(v.operations)
    &&& wf_text(v.name)
    &&& forall|i: int| 0 <= i < v.latlng.len() ==> wf_num(#[trigger] v.latlng[i])
    &&& wf_text(v.six_hrs_data)
    &&& wf_text(v.id)
}

/// A station-list envelope whose fields can stand in the canonical text.
pub open spec fn wf_station_list(env: crate::data::StationListEnvelopeV) -> bool {
    &&& wf_text(env.details)
    &&& forall|i: int| 0 <= i < env.stations.len() ==> wf_station(#[trigger] env.stations[i])
}

/// A flow reading whose fields can stand in the canonical text.
pub open spec fn wf_reading(r: FlowReadingV) -> bool {
    wf_text(r.date) && wf_text(r.value)
}

/// A flow-history envelope whose fields can stand in the canonical text.
pub open spec fn wf_flow_history(env: crate::data::FlowHistoryEnvelopeV) -> bool {
    &&& wf_text(env.details)
    &&& wf_text(env.data.start_date)
    &&& wf_text(env.data.end_date)
    &&& wf_text(env.data.unit)
    &&& forall|i: int| 0 <= i < env.data.history.len() ==> wf_reading(#[trigger] env.data.history[i])
}

// ---------------------------------------------------------------------
// The canonical text.
// ---------------------------------------------------------------------

/// The items joined by single commas, in order.
pub open spec fn join_comma(items: Seq<Seq<char>>) -> Seq<char>
    decreases items.len(),
{
    if items.len() == 0 {
        Seq::empty()
    } else if items.len() == 1 {
        items[0]
    } else {
        items[0] + seq![','] + join_comma(items.drop_first())
    }
}

/// The canonical text of one station record.
pub open spec fn spec_station_json(v: StationV) -> Seq<char> {
    "{\"province\":\""@ + v.province + "\",\"operations\":\""@ + v.operations + "\",\"name\":\""@
        + v.name + "\",\"latlng\":["@ + join_comma(v.latlng) + "],\"6hrs_data\":\""@
        + v.six_hrs_data + "\",\"id\":\""@ + v.id + "\"}"@
}

/// The canonical texts of a run of station records.
pub open spec fn spec_stations_json(stations: Seq<StationV>) -> Seq<char> {
    join_comma(stations.map_values(|v: StationV| spec_station_json(v)))
}

/// The canonical text of a station-list envelope, over a raw code token.
pub open spec fn spec_station_list_json_raw(
    code_text: Seq<char>,
    details: Seq<char>,
    stations: Seq<StationV>,
) -> Seq<char> {
    "{\"code\":"@ + code_text + ",\"details\":\""@ + details + "\",\"message\":["@
        + spec_stations_json(stations) + "]}"@
}

/// The canonical text of a station-list envelope.
pub open spec fn spec_station_list_json(env: crate::data::StationListEnvelopeV) -> Seq<char> {
    spec_station_list_json_raw(spec_int_text(env.code), env.details, env.stations)
}

/// The canonical text of one flow reading.
pub open spec fn spec_reading_json(r: FlowReadingV) -> Seq<char> {
    "{\"date\":\""@ + r.date + "\",\"value\":\""@ + r.value + "\"}"@
}

/// The canonical texts of a run of flow readings.
pub open spec fn spec_readings_json(history: Seq<FlowReadingV>) -> Seq<char> {
    join_comma(history.map_values(|r: FlowReadingV| spec_reading_json(r)))
}

/// The canonical text of a flow-history envelope, over a raw code token.
pub open spec fn spec_flow_history_json_raw(
    code_text: Seq<char>,
    details: Seq<char>,
    start_date: Seq<char>,
    end_date: Seq<char>,
    unit: Seq<char>,
    history: Seq<FlowReadingV>,
) -> Seq<char> {
    "{\"code\":"@ + code_text + ",\"details\":\""@ + details
        + "\",\"message\":{\"startDate\":\""@ + start_date + "\",\"endDate\":\""@ + end_date
        + "\",\"unit\":\""@ + unit + "\",\"history\":["@ + spec_readings_json(history) + "]}}"@
}

/// The canonical text of a flow-history envelope.
pub open spec fn spec_flow_history_json(env: crate::data::FlowHistoryEnvelopeV) -> Seq<char> {
    spec_flow_history_json_raw(
        spec_int_text(env.code),
        env.details,
        env.data.start_date,
        env.data.end_date,
        env.data.unit,
        env.data.history,
    )
}

/// `text` is the canonical station-list envelope around exactly `stations`.
pub open spec fn is_station_list_image(text: Seq<char>, stations: Seq<StationV>) -> bool {
    exists|ct: Seq<char>, det: Seq<char>|
        wf_num(ct) && wf_text(det) && (forall|t: int|
            0 <= t < stations.len() ==> wf_station(#[trigger] stations[t])) && text
            == #[trigger] spec_station_list_json_raw(ct, det, stations)
}

/// `text` is the canonical flow-history envelope around exactly `history`.
pub open spec fn is_flow_history_image(text: Seq<char>, history: Seq<FlowReadingV>) -> bool {
    exists|ct: Seq<char>, det: Seq<char>, sd: Seq<char>, ed: Seq<char>, un: Seq<char>|
        wf_num(ct) && wf_text(det) && wf_text(sd) && wf_text(ed) && wf_text(un) && (forall|t: int|
            0 <= t < history.len() ==> wf_reading(#[trigger] history[t])) && text
            == #[trigger] spec_flow_history_json_raw(ct, det, sd, ed, un, history)
}

/// Every character of a non-negative decimal text is a digit.
proof fn lemma_nat_digits_numeric(n: int)
    requires
        n >= 0,
    ensures
        wf_num(crate::numbers::spec_nat_digits(n)),
    decreases n,
{
    if n >= 10 {
        lemma_nat_digits_numeric(n / 10);
        let whole = crate::numbers::spec_nat_digits(n);
        let prefix = crate::numbers::spec_nat_digits(n / 10);
        assert forall|i: int| 0 <= i < whole.len() implies is_num_char(#[trigger] whole[i]) by {
            if i < prefix.len() {
                assert(whole[i] == prefix[i]);
                assert(is_num_char(prefix[i]));
            }
        }
    }
}

/// The decimal text of any integer is a well-formed numeric token.
proof fn lemma_int_text_numeric(n: int)
    ensures
        wf_num(spec_int_text(n)),
{
    if n < 0 {
        lemma_nat_digits_numeric(-n);
        let whole = spec_int_text(n);
        let digits = crate::numbers::spec_nat_digits(-n);
        assert forall|i: int| 0 <= i < whole.len() implies is_num_char(#[trigger] whole[i]) by {
            if i > 0 {
                assert(whole[i] == digits[i - 1]);
                assert(is_num_char(digits[i - 1]));
            }
        }
    } else {
        lemma_nat_digits_numeric(n);
    }
}

/// The canonical text of any well-formed station-list envelope is a
/// station-list image holding exactly the envelope's stations.  Together
/// with [`parse_station_list`]'s contract this closes the round trip: the
/// rendering of any well-formed envelope with N station records parses
/// successfully to exactly those N stations, every field verbatim and in
/// order.
pub proof fn lemma_station_list_render_is_image(env: crate::data::StationListEnvelopeV)
    requires
        wf_station_list(env),
    ensures
        is_station_list_image(spec_station_list_json(env), env.stations),
{
    lemma_int_text_numeric(env.code);
}

/// The canonical text of any well-formed flow-history envelope is a
/// flow-history image holding exactly the envelope's reading history.
/// Together with [`parse_flow_history`]'s contract this closes the round
/// trip for the flow side.
pub proof fn lemma_flow_history_render_is_image(env: crate::data::FlowHistoryEnvelopeV)
    requires
        wf_flow_history(env),
    ensures
        is_flow_history_image(spec_flow_history_json(env), env.data.history),
{
    lemma_int_text_numeric(env.code);
}

// ---------------------------------------------------------------------
// Rendering.
// ---------------------------------------------------------------------

fn append_num_items(out: &mut String, items: &Vec<String>, k: usize)
    requires
        k <= items@.len(),
    ensures
        final(out)@ == old(out)@ + join_comma(items.deep_view().skip(k as int)),
    decreases items@.len() - k,
{
    let ghost rest: Seq<Seq<char>> = items.deep_view().skip(k as int);
    if k == items.len() {
        proof {
            assert(rest.len() == 0);
            assert(out@ =~= old(out)@ + join_comma(rest));
        }
    } else {
        out.append(items[k].as_str());
        if k + 1 == items.len() {
            proof {
                assert(rest.len() == 1);
                assert(rest[0] == items.deep_view()[k as int]);
                assert(out@ =~= old(out)@ + join_comma(rest));
            }
        } else {
            out.append(",");
            append_num_items(out, items, k + 1);
            proof {
                reveal_strlit(",");
                assert(","@ =~= seq![',']);
                assert(rest.drop_first() =~= items.deep_view().skip(k as int + 1));
                assert(rest[0] == items.deep_view()[k as int]);
                assert(out@ =~= old(out)@ + join_comma(rest));
            }
        }
    }
}

fn append_station_json(out: &mut String, st: &Station)
    ensures
        final(out)@ == old(out)@ + spec_station_json(st@),
{
    out.append("{\"province\":\"");
    out.append(st.province.as_str());
    out.append("\",\"operations\":\"");
    out.append(st.operations.as_str());
    out.append("\",\"name\":\"");
    out.append(st.name.as_str());
    out.append("\",\"latlng\":[");
    append_num_items(out, &st.latlng, 0);
    proof {
        assert(st.latlng.deep_view().skip(0) =~= st@.latlng);
    }
    out.append("],\"6hrs_data\":\"");
    out.append(st.six_hrs_data.as_str());
    out.append("\",\"id\":\"");
    out.append(st.id.as_str());
    out.append("\"}");
    proof {
        assert(out@ =~= old(out)@ + spec_station_json(st@));
    }
}

fn append_station_items(out: &mut String, items: &Vec<Station>, k: usize)
    requires
        k <= items@.len(),
    ensures
        final(out)@ == old(out)@ + spec_stations_json(items.deep_view().skip(k as int)),
    decreases items@.len() - k,
{
    let ghost rest: Seq<StationV> = items.deep_view().skip(k as int);
    let ghost texts = rest.map_values(|v: StationV| spec_station_json(v));
    if k == items.len() {
        proof {
            assert(texts.len() == 0);
            assert(out@ =~= old(out)@ + join_comma(texts));
        }
    } else {
        append_station_json(out, &items[k]);
        proof {
            assert(rest[0] == items.deep_view()[k as int]);
            assert(texts[0] == spec_station_json(items.deep_view()[k as int]));
        }
        if k + 1 == items.len() {
            proof {
                assert(texts.len() == 1);
                assert(out@ =~= old(out)@ + join_comma(texts));
            }
        } else {
            out.append(",");
            append_station_items(out, items, k + 1);
            proof {
                reveal_strlit(",");
                assert(","@ =~= seq![',']);
                let tail = items.deep_view().skip(k as int + 1);
                assert(texts.drop_first() =~= tail.map_values(|v: StationV| spec_station_json(v)));
                assert(out@ =~= old(out)@ + join_comma(texts));
            }
        }
    }
}

/// Renders a station-list envelope as its canonical text.
pub fn station_list_to_json(env: &StationListEnvelope) -> (out: String)
    ensures
        out@ == spec_station_list_json(env@),
{
    let mut out = String::from_str("{\"code\":");
    let code = i32_text(env.code);
    out.append(code.as_str());
    out.append(",\"details\":\"");
    out.append(env.details.as_str());
    out.append("\",\"message\":[");
    append_station_items(&mut out, &env.stations, 0);
    proof {
        assert(env.stations.deep_view().skip(0) =~= env@.stations);
    }
    out.append("]}");
    proof {
        assert(out@ =~= spec_station_list_json(env@));
    }
    out
}

fn append_reading_json(out: &mut String, r: &FlowReading)
    ensures
        final(out)@ == old(out)@ + spec_reading_json(r@),
{
    out.append("{\"date\":\"");
    out.append(r.date.as_str());
    out.append("\",\"value\":\"");
    out.append(r.value.as_str());
    out.append("\"}");
    proof {
        assert(out@ =~= old(out)@ + spec_reading_json(r@));
    }
}

fn append_reading_items(out: &mut String, items: &Vec<FlowReading>, k: usize)
    requires
        k <= items@.len(),
    ensures
        final(out)@ == old(out)@ + spec_readings_json(items.deep_view().skip(k as int)),
    decreases items@.len() - k,
{
    let ghost rest: Seq<FlowReadingV> = items.deep_view().skip(k as int);
    let ghost texts = rest.map_values(|r: FlowReadingV| spec_reading_json(r));
    if k == items.len() {
        proof {
            assert(texts.len() == 0);
            assert(out@ =~= old(out)@ + join_comma(texts));
        }
    } else {
        append_reading_json(out, &items[k]);
        proof {
            assert(rest[0] == items.deep_view()[k as int]);
            assert(texts[0] == spec_reading_json(items.deep_view()[k as int]));
        }
        if k + 1 == items.len() {
            proof {
                assert(texts.len() == 1);
                assert(out@ =~= old(out)@ + join_comma(texts));
            }
        } else {
            out.append(",");
            append_reading_items(out, items, k + 1);
            proof {
                reveal_strlit(",");
                assert(","@ =~= seq![',']);
                let tail = items.deep_view().skip(k as int + 1);
                assert(texts.drop_first() =~= tail.map_values(
                    |r: FlowReadingV| spec_reading_json(r),
                ));
                assert(out@ =~= old(out)@ + join_comma(texts));
            }
        }
    }
}

/// Renders a flow-history envelope as its canonical text.
pub fn flow_history_to_json(env: &FlowHistoryEnvelope) -> (out: String)
    ensures
        out@ == spec_flow_history_json(env@),
{
    let mut out = String::from_str("{\"code\":");
    let code = i32_text(env.code);
    out.append(code.as_str());
    out.append(",\"details\":\"");
    out.append(env.details.as_str());
    out.append("\",\"message\":{\"startDate\":\"");
    out.append(env.data.start_date.as_str());
    out.append("\",\"endDate\":\"");
    out.append(env.data.end_date.as_str());
    out.append("\",\"unit\":\"");
    out.append(env.data.unit.as_str());
    out.append("\",\"history\":[");
    append_reading_items(&mut out, &env.data.history, 0);
    proof {
        assert(env.data.history.deep_view().skip(0) =~= env@.data.history);
    }
    out.append("]}}");
    proof {
        assert(out@ =~= spec_flow_history_json(env@));
    }
    out
}

// ---------------------------------------------------------------------
// Parsing.
// ---------------------------------------------------------------------

/// The parse failure of either envelope: the text is not the canonical
/// envelope shape.
#[derive(Clone, Copy, Debug, PartialEq, Eq, Structural)]
pub enum ParseError {
    Malformed,
}

impl ParseError {
    /// The diagnostic shown for this failure.
    pub fn describe(&self) -> (m: String)
        ensures
            m@ == "response is not a well-formed envelope"@,
    {
        String::from_str("response is not a well-formed envelope")
    }
}

/// Concatenating two adjacent pieces of a sequence.
proof fn lemma_cat(s: Seq<char>, a: int, b: int, c: int)
    requires
        0 <= a <= b <= c <= s.len(),
    ensures
        s.subrange(a, c) == s.subrange(a, b) + s.subrange(b, c),
{
    assert(s.subrange(a, c) =~= s.subrange(a, b) + s.subrange(b, c));
}

/// Two equal concatenations with equally long heads have equal parts.
proof fn lemma_split(x1: Seq<char>, y1: Seq<char>, x2: Seq<char>, y2: Seq<char>)
    requires
        x1 + y1 == x2 + y2,
        x1.len() == x2.len(),
    ensures
        x1 == x2,
        y1 == y2,
{
    assert((x1 + y1).len() == x1.len() + y1.len());
    assert((x2 + y2).len() == x2.len() + y2.len());
    assert forall|k: int| 0 <= k < x1.len() implies x1[k] == x2[k] by {
        assert((x1 + y1)[k] == x1[k]);
        assert((x2 + y2)[k] == x2[k]);
        assert((x1 + y1)[k] == (x2 + y2)[k]);
    }
    assert(x1 =~= x2);
    assert(y1.len() == y2.len());
    assert forall|k: int| 0 <= k < y1.len() implies y1[k] == y2[k] by {
        assert((x1 + y1)[x1.len() + k] == y1[k]);
        assert((x2 + y2)[x2.len() + k] == y2[k]);
        assert((x1 + y1)[x1.len() + k] == (x2 + y2)[x1.len() + k]);
    }
    assert(y1 =~= y2);
}

/// A segment known to be a concatenation splits at the head's length.
proof fn lemma_peel(s: Seq<char>, a: int, b: int, c: int, x: Seq<char>, y: Seq<char>)
    requires
        0 <= a <= b <= c <= s.len(),
        s.subrange(a, c) == x + y,
        b - a == x.len(),
    ensures
        s.subrange(a, b) == x,
        s.subrange(b, c) == y,
{
    lemma_cat(s, a, b, c);
    lemma_split(s.subrange(a, b), s.subrange(b, c), x, y);
}

fn num_char(c: char) -> (b: bool)
    ensures
        b == is_num_char(c),
{
    c == '0' || c == '1' || c == '2' || c == '3' || c == '4' || c == '5' || c == '6' || c == '7'
        || c == '8' || c == '9' || c == '-' || c == '+' || c == '.' || c == 'e' || c == 'E'
}

/// The end of the numeric token starting at `i`: the first position at or
/// after `i` holding no numeric character.
fn scan_num_end(s: &str, i: usize) -> (j: usize)
    requires
        i <= s@.len(),
    ensures
        i <= j <= s@.len(),
        forall|k: int| i <= k < j ==> is_num_char(#[trigger] s@[k]),
        j < s@.len() ==> !is_num_char(s@[j as int]),
    decreases s@.len() - i,
{
    let n = s.unicode_len();
    if i == n {
        i
    } else if !num_char(s.get_char(i)) {
        i
    } else {
        scan_num_end(s, i + 1)
    }
}

/// The first quote at or after `i`, if any.
fn scan_quote(s: &str, i: usize) -> (r: Option<usize>)
    requires
        i <= s@.len(),
    ensures
        r matches Some(q) ==> i <= q < s@.len() && s@[q as int] == '"' && forall|k: int|
            i <= k < q ==> #[trigger] s@[k] != '"',
        r is None ==> forall|k: int| i <= k < s@.len() ==> #[trigger] s@[k] != '"',
    decreases s@.len() - i,
{
    let n = s.unicode_len();
    if i == n {
        None
    } else if s.get_char(i) == '"' {
        Some(i)
    } else {
        scan_quote(s, i + 1)
    }
}

/// Whether `lit` stands verbatim at position `i` of `s`; on success the
/// position just after it.
fn expect_lit(s: &str, i: usize, lit: &str) -> (r: Option<usize>)
    requires
        i <= s@.len(),
    ensures
        r matches Some(j) ==> j == i + lit@.len() && i + lit@.len() <= s@.len() && s@.subrange(
            i as int,
            j as int,
        ) == lit@,
        r is None ==> i + lit@.len() > s@.len() || s@.subrange(
            i as int,
            i + lit@.len() as int,
        ) != lit@,
{
    let n = s.unicode_len();
    let m = lit.unicode_len();
    if m > n - i {
        return None;
    }
    let mut j: usize = 0;
    while j < m
        invariant
            j <= m,
            m == lit@.len(),
            n == s@.len(),
            i + m <= n,
            forall|t: int| 0 <= t < j ==> s@[i + t] == lit@[t],
        decreases m - j,
    {
        if s.get_char(i + j) != lit.get_char(j) {
            proof {
                assert(s@.subrange(i as int, i + lit@.len() as int)[j as int] != lit@[j as int]);
            }
            return None;
        }
        j = j + 1;
    }
    proof {
        assert(s@.subrange(i as int, (i + m) as int) =~= lit@);
    }
    Some(i + m)
}

/// The text field starting at `i` and running to the first quote after it,
/// returned together with that quote's position.
fn parse_text_field(s: &str, i: usize) -> (r: Option<(String, usize)>)
    requires
        i <= s@.len(),
    ensures
        r matches Some(pair) ==> {
            &&& i <= pair.1 < s@.len()
            &&& s@[pair.1 as int] == '"'
            &&& pair.0@ == s@.subrange(i as int, pair.1 as int)
            &&& wf_text(pair.0@)
            &&& forall|k: int| i <= k < pair.1 ==> #[trigger] s@[k] != '"'
        },
        r is None ==> forall|k: int| i <= k < s@.len() ==> #[trigger] s@[k] != '"',
{
    match scan_quote(s, i) {
        None => None,
        Some(q) => {
            let content = String::from_str(s.substring_char(i, q));
            proof {
                assert forall|t: int| 0 <= t < content@.len() implies content@[t] != '"' by {
                    assert(content@[t] == s@[i + t]);
                }
            }
            Some((content, q))
        },
    }
}

/// The first token of a joined numeric run, and what follows it.
proof fn lemma_nums_head(s: Seq<char>, i: int, nums: Seq<Seq<char>>, rest: Seq<char>)
    requires
        0 <= i <= s.len(),
        nums.len() >= 1,
        forall|t: int| 0 <= t < nums.len() ==> wf_num(#[trigger] nums[t]),
        s.skip(i) == join_comma(nums) + rest,
    ensures
        wf_num(nums[0]),
        i + nums[0].len() <= s.len(),
        s.subrange(i, i + nums[0].len()) == nums[0],
        nums.len() == 1 ==> join_comma(nums) == nums[0] && s.subrange(
            i + nums[0].len(),
            s.len() as int,
        ) == rest,
        nums.len() > 1 ==> join_comma(nums).len() == nums[0].len() + 1 + join_comma(
            nums.drop_first(),
        ).len() && s.subrange(i + nums[0].len(), s.len() as int) == seq![','] + (join_comma(
            nums.drop_first(),
        ) + rest),
{
    assert(s.skip(i) =~= s.subrange(i, s.len() as int));
    if nums.len() == 1 {
        assert(join_comma(nums) == nums[0]);
        assert((nums[0] + rest).len() == nums[0].len() + rest.len());
        assert(s.subrange(i, s.len() as int) == nums[0] + rest);
        lemma_peel(s, i, i + nums[0].len(), s.len() as int, nums[0], rest);
    } else {
        let join2 = join_comma(nums.drop_first());
        assert(join_comma(nums) == nums[0] + seq![','] + join2);
        let lhs = (nums[0] + seq![','] + join2) + rest;
        let rhs = nums[0] + (seq![','] + (join2 + rest));
        assert(lhs =~= rhs);
        assert(s.subrange(i, s.len() as int) == rhs);
        assert(rhs.len() == nums[0].len() + (seq![','] + (join2 + rest)).len());
        lemma_peel(
            s,
            i,
            i + nums[0].len(),
            s.len() as int,
            nums[0],
            seq![','] + (join2 + rest),
        );
    }
}

/// One or more comma-separated numeric tokens starting at `i`, pushed onto
/// `acc` in order; on success the position just after the last token, with
/// the consumed segment being exactly the joined tokens.
fn parse_num_items(s: &str, i: usize, acc: &mut Vec<String>) -> (r: (
    Option<usize>,
    Ghost<Seq<Seq<char>>>,
))
    requires
        i <= s@.len(),
    ensures
        r.0 matches Some(j) ==> {
            let items = r.1@;
            &&& i <= j <= s@.len()
            &&& final(acc).deep_view() == old(acc).deep_view() + items
            &&& items.len() >= 1
            &&& forall|t: int| 0 <= t < items.len() ==> wf_num(#[trigger] items[t])
            &&& s@.subrange(i as int, j as int) == join_comma(items)
        },
        forall|nums: Seq<Seq<char>>, rest: Seq<char>|
            nums.len() >= 1 && (forall|t: int|
                0 <= t < nums.len() ==> wf_num(#[trigger] nums[t])) && s@.skip(i as int)
                == #[trigger] (join_comma(nums) + rest) && rest.len() > 0 && rest[0] == ']' ==> (
            r.0 matches Some(j) && r.1@ == nums && j == i + join_comma(nums).len()),
    decreases s@.len() - i,
{
    let n = s.unicode_len();
    let j = scan_num_end(s, i);
    proof {
        assert forall|nums: Seq<Seq<char>>, rest: Seq<char>|
            nums.len() >= 1 && (forall|t: int|
                0 <= t < nums.len() ==> wf_num(#[trigger] nums[t])) && s@.skip(i as int)
                == #[trigger] (join_comma(nums) + rest) && rest.len() > 0 && rest[0]
                == ']' implies j == i + nums[0].len() by {
            lemma_nums_head(s@, i as int, nums, rest);
            let e = i + nums[0].len();
            if (j as int) < e {
                assert(s@.subrange(i as int, e as int)[j - i] == s@[j as int]);
                assert(is_num_char(nums[0][j - i]));
                assert(j < s@.len());
                assert(!is_num_char(s@[j as int]));
                assert(false);
            }
            if (j as int) > e {
                assert(is_num_char(s@[e as int]));
                assert(s@.subrange(e as int, s@.len() as int)[0] == s@[e as int]);
                if nums.len() == 1 {
                    assert(s@[e as int] == ']');
                } else {
                    assert(s@[e as int] == ',');
                }
                assert(false);
            }
        }
    }
    if j == i {
        proof {
            assert forall|nums: Seq<Seq<char>>, rest: Seq<char>|
                nums.len() >= 1 && (forall|t: int|
                    0 <= t < nums.len() ==> wf_num(#[trigger] nums[t])) && s@.skip(i as int)
                    == #[trigger] (join_comma(nums) + rest) && rest.len() > 0 && rest[0]
                    == ']' implies false by {
                lemma_nums_head(s@, i as int, nums, rest);
            }
        }
        return (None, Ghost(Seq::empty()));
    }
    let tok = String::from_str(s.substring_char(i, j));
    proof {
        assert forall|t: int| 0 <= t < tok@.len() implies is_num_char(#[trigger] tok@[t]) by {
            assert(tok@[t] == s@[i + t]);
        }
        assert(wf_num(tok@));
    }
    let ghost tokv: Seq<char> = tok@;
    let ghost before: Seq<Seq<char>> = acc.deep_view();
    acc.push(tok);
    proof {
        assert(acc.deep_view() =~= before + seq![tokv]);
    }
    if j < n && s.get_char(j) == ',' {
        let (r2, g2) = parse_num_items(s, j + 1, acc);
        proof {
            assert forall|nums: Seq<Seq<char>>, rest: Seq<char>|
                nums.len() >= 1 && (forall|t: int|
                    0 <= t < nums.len() ==> wf_num(#[trigger] nums[t])) && s@.skip(i as int)
                    == #[trigger] (join_comma(nums) + rest) && rest.len() > 0 && rest[0]
                    == ']' implies (r2 matches Some(jj) && g2@ == nums.drop_first() && tokv
                    == nums[0] && jj == j + 1 + join_comma(nums.drop_first()).len()
                    && join_comma(nums).len() == nums[0].len() + 1 + join_comma(
                    nums.drop_first(),
                ).len()) by {
                lemma_nums_head(s@, i as int, nums, rest);
                if nums.len() == 1 {
                    assert(s@.subrange(j as int, s@.len() as int)[0] == s@[j as int]);
                    assert(s@[j as int] == ']');
                    assert(false);
                }
                let join2 = join_comma(nums.drop_first());
                lemma_peel(s@, j as int, j as int + 1, s@.len() as int, seq![','], join2 + rest);
                assert(s@.skip(j as int + 1) =~= s@.subrange(j as int + 1, s@.len() as int));
                assert(s@.skip(j as int + 1) == join_comma(nums.drop_first()) + rest);
                assert(nums.drop_first().len() >= 1);
                assert forall|t: int| 0 <= t < nums.drop_first().len() implies wf_num(
                    #[trigger] nums.drop_first()[t],
                ) by {
                    assert(nums.drop_first()[t] == nums[t + 1]);
                }
                assert(tokv == s@.subrange(i as int, j as int));
                assert(tokv == nums[0]);
            }
        }
        match r2 {
            None => {
                proof {
                    assert forall|nums: Seq<Seq<char>>, rest: Seq<char>|
                        nums.len() >= 1 && (forall|t: int|
                            0 <= t < nums.len() ==> wf_num(#[trigger] nums[t])) && s@.skip(
                            i as int,
                        ) == #[trigger] (join_comma(nums) + rest) && rest.len() > 0 && rest[0]
                            == ']' implies false by {}
                }
                (None, Ghost(Seq::empty()))
            },
            Some(j2) => {
                let ghost items: Seq<Seq<char>> = seq![tokv] + g2@;
                proof {
                    assert(acc.deep_view() =~= before + items);
                    assert(items[0] == tokv);
                    assert(items.drop_first() =~= g2@);
                    assert(s@.subrange(j as int, j as int + 1) =~= seq![',']);
                    lemma_cat(s@, i as int, j as int, j as int + 1);
                    lemma_cat(s@, i as int, j as int + 1, j2 as int);
                    assert(join_comma(items) == items[0] + seq![','] + join_comma(
                        items.drop_first(),
                    ));
                    assert(s@.subrange(i as int, j2 as int) == join_comma(items));
                    assert forall|t: int| 0 <= t < items.len() implies wf_num(
                        #[trigger] items[t],
                    ) by {
                        if t > 0 {
                            assert(items[t] == g2@[t - 1]);
                        }
                    }
                    assert forall|nums: Seq<Seq<char>>, rest: Seq<char>|
                        nums.len() >= 1 && (forall|t: int|
                            0 <= t < nums.len() ==> wf_num(#[trigger] nums[t])) && s@.skip(
                            i as int,
                        ) == #[trigger] (join_comma(nums) + rest) && rest.len() > 0 && rest[0]
                            == ']' implies (items == nums && j2 == i + join_comma(
                        nums,
                    ).len()) by {
                        assert(g2@ == nums.drop_first());
                        assert(tokv == nums[0]);
                        assert(items =~= nums);
                    }
                }
                (Some(j2), Ghost(items))
            },
        }
    } else {
        let ghost items: Seq<Seq<char>> = seq![tokv];
        proof {
            assert(acc.deep_view() =~= before + items);
            assert(join_comma(items) == items[0]);
            assert forall|nums: Seq<Seq<char>>, rest: Seq<char>|
                nums.len() >= 1 && (forall|t: int|
                    0 <= t < nums.len() ==> wf_num(#[trigger] nums[t])) && s@.skip(i as int)
                    == #[trigger] (join_comma(nums) + rest) && rest.len() > 0 && rest[0]
                    == ']' implies (items == nums && j == i + join_comma(nums).len()) by {
                lemma_nums_head(s@, i as int, nums, rest);
                if nums.len() > 1 {
                    assert(s@.subrange(j as int, s@.len() as int)[0] == s@[j as int]);
                    assert(s@[j as int] == ',');
                    assert(j < n);
                    assert(false);
                }
                assert(tokv == s@.subrange(i as int, j as int));
                assert(tokv == nums[0]);
                assert(items =~= nums);
            }
        }
        (Some(j), Ghost(items))
    }
}

/// Where each piece of a canonical station record stands in `s` when one
/// begins at `i`.
proof fn lemma_station_layout(s: Seq<char>, i: int, v: StationV, rest: Seq<char>)
    requires
        0 <= i <= s.len(),
        wf_station(v),
        s.skip(i) == spec_station_json(v) + rest,
    ensures
        ({
            let d1 = i + "{\"province\":\""@.len();
            let d2 = d1 + v.province.len();
            let d3 = d2 + "\",\"operations\":\""@.len();
            let d4 = d3 + v.operations.len();
            let d5 = d4 + "\",\"name\":\""@.len();
            let d6 = d5 + v.name.len();
            let d7 = d6 + "\",\"latlng\":["@.len();
            let d8 = d7 + join_comma(v.latlng).len();
            let d9 = d8 + "],\"6hrs_data\":\""@.len();
            let d10 = d9 + v.six_hrs_data.len();
            let d11 = d10 + "\",\"id\":\""@.len();
            let d12 = d11 + v.id.len();
            let d13 = d12 + "\"}"@.len();
            &&& d13 == i + spec_station_json(v).len()
            &&& d13 <= s.len()
            &&& d2 < d3 && d4 < d5 && d6 < d7 && d8 < d9 && d10 < d11 && d12 < d13
            &&& s.subrange(i, d1) == "{\"province\":\""@
            &&& s.subrange(d1, d2) == v.province
            &&& (forall|k: int| d1 <= k < d2 ==> #[trigger] s[k] != '"')
            &&& s[d2] == '"'
            &&& s.subrange(d2, d3) == "\",\"operations\":\""@
            &&& s.subrange(d3, d4) == v.operations
            &&& (forall|k: int| d3 <= k < d4 ==> #[trigger] s[k] != '"')
            &&& s[d4] == '"'
            &&& s.subrange(d4, d5) == "\",\"name\":\""@
            &&& s.subrange(d5, d6) == v.name
            &&& (forall|k: int| d5 <= k < d6 ==> #[trigger] s[k] != '"')
            &&& s[d6] == '"'
            &&& s.subrange(d6, d7) == "\",\"latlng\":["@
            &&& s.subrange(d7, d8) == join_comma(v.latlng)
            &&& s[d8] == ']'
            &&& (v.latlng.len() == 0 ==> d7 == d8 && s[d7] == ']')
            &&& (v.latlng.len() >= 1 ==> is_num_char(s[d7]))
            &&& s.subrange(d8, d9) == "],\"6hrs_data\":\""@
            &&& s.subrange(d9, d10) == v.six_hrs_data
            &&& (forall|k: int| d9 <= k < d10 ==> #[trigger] s[k] != '"')
            &&& s[d10] == '"'
            &&& s.subrange(d10, d11) == "\",\"id\":\""@
            &&& s.subrange(d11, d12) == v.id
            &&& (forall|k: int| d11 <= k < d12 ==> #[trigger] s[k] != '"')
            &&& s[d12] == '"'
            &&& s.subrange(d12, d13) == "\"}"@
        }),
{
    let l1 = "{\"province\":\""@;
    let l2 = "\",\"operations\":\""@;
    let l3 = "\",\"name\":\""@;
    let l4 = "\",\"latlng\":["@;
    let l5 = "],\"6hrs_data\":\""@;
    let l6 = "\",\"id\":\""@;
    let l7 = "\"}"@;
    reveal_strlit("{\"province\":\"");
    reveal_strlit("\",\"operations\":\"");
    reveal_strlit("\",\"name\":\"");
    reveal_strlit("\",\"latlng\":[");
    reveal_strlit("],\"6hrs_data\":\"");
    reveal_strlit("\",\"id\":\"");
    reveal_strlit("\"}");
    let jn = join_comma(v.latlng);
    let c1 = l1 + v.province;
    let c2 = c1 + l2;
    let c3 = c2 + v.operations;
    let c4 = c3 + l3;
    let c5 = c4 + v.name;
    let c6 = c5 + l4;
    let c7 = c6 + jn;
    let c8 = c7 + l5;
    let c9 = c8 + v.six_hrs_data;
    let c10 = c9 + l6;
    let c11 = c10 + v.id;
    let r = spec_station_json(v);
    assert(r == c11 + l7);
    assert(c1.len() == l1.len() + v.province.len());
    assert(c2.len() == c1.len() + l2.len());
    assert(c3.len() == c2.len() + v.operations.len());
    assert(c4.len() == c3.len() + l3.len());
    assert(c5.len() == c4.len() + v.name.len());
    assert(c6.len() == c5.len() + l4.len());
    assert(c7.len() == c6.len() + jn.len());
    assert(c8.len() == c7.len() + l5.len());
    assert(c9.len() == c8.len() + v.six_hrs_data.len());
    assert(c10.len() == c9.len() + l6.len());
    assert(c11.len() == c10.len() + v.id.len());
    assert(r.len() == c11.len() + l7.len());
    let d1 = i + l1.len() as int;
    let d2 = d1 + v.province.len();
    let d3 = d2 + l2.len();
    let d4 = d3 + v.operations.len();
    let d5 = d4 + l3.len();
    let d6 = d5 + v.name.len();
    let d7 = d6 + l4.len();
    let d8 = d7 + jn.len();
    let d9 = d8 + l5.len();
    let d10 = d9 + v.six_hrs_data.len();
    let d11 = d10 + l6.len();
    let d12 = d11 + v.id.len();
    let d13 = d12 + l7.len();
    assert(d13 == i + r.len());
    assert(s.skip(i) =~= s.subrange(i, s.len() as int));
    assert((r + rest).len() == r.len() + rest.len());
    assert(s.subrange(i, s.len() as int) == r + rest);
    lemma_peel(s, i, d13, s.len() as int, r, rest);
    lemma_peel(s, i, d12, d13, c11, l7);
    lemma_peel(s, i, d11, d12, c10, v.id);
    lemma_peel(s, i, d10, d11, c9, l6);
    lemma_peel(s, i, d9, d10, c8, v.six_hrs_data);
    lemma_peel(s, i, d8, d9, c7, l5);
    lemma_peel(s, i, d7, d8, c6, jn);
    lemma_peel(s, i, d6, d7, c5, l4);
    lemma_peel(s, i, d5, d6, c4, v.name);
    lemma_peel(s, i, d4, d5, c3, l3);
    lemma_peel(s, i, d3, d4, c2, v.operations);
    lemma_peel(s, i, d2, d3, c1, l2);
    lemma_peel(s, i, d1, d2, l1, v.province);
    assert(s.subrange(d2, d3)[0] == s[d2]);
    assert(l2[0] == '"');
    assert(s.subrange(d4, d5)[0] == s[d4]);
    assert(l3[0] == '"');
    assert(s.subrange(d6, d7)[0] == s[d6]);
    assert(l4[0] == '"');
    assert(s.subrange(d8, d9)[0] == s[d8]);
    assert(l5[0] == ']');
    assert(s.subrange(d10, d11)[0] == s[d10]);
    assert(l6[0] == '"');
    assert(s.subrange(d12, d13)[0] == s[d12]);
    assert(l7[0] == '"');
    assert forall|k: int| d1 <= k < d2 implies #[trigger] s[k] != '"' by {
        assert(s.subrange(d1, d2)[k - d1] == s[k]);
        assert(v.province[k - d1] != '"');
    }
    assert forall|k: int| d3 <= k < d4 implies #[trigger] s[k] != '"' by {
        assert(s.subrange(d3, d4)[k - d3] == s[k]);
        assert(v.operations[k - d3] != '"');
    }
    assert forall|k: int| d5 <= k < d6 implies #[trigger] s[k] != '"' by {
        assert(s.subrange(d5, d6)[k - d5] == s[k]);
        assert(v.name[k - d5] != '"');
    }
    assert forall|k: int| d9 <= k < d10 implies #[trigger] s[k] != '"' by {
        assert(s.subrange(d9, d10)[k - d9] == s[k]);
        assert(v.six_hrs_data[k - d9] != '"');
    }
    assert forall|k: int| d11 <= k < d12 implies #[trigger] s[k] != '"' by {
        assert(s.subrange(d11, d12)[k - d11] == s[k]);
        assert(v.id[k - d11] != '"');
    }
    if v.latlng.len() >= 1 {
        assert(wf_num(v.latlng[0]));
        if v.latlng.len() == 1 {
            assert(jn == v.latlng[0]);
        } else {
            assert(jn == v.latlng[0] + seq![','] + join_comma(v.latlng.drop_first()));
            assert(jn[0] == v.latlng[0][0]);
        }
        assert(is_num_char(jn[0]));
        assert(s.subrange(d7, d8)[0] == s[d7]);
    }
}

/// The opening of a canonical station record: province and operations,
/// read from `i` up to the name field.  Two-sided, as [`parse_station_at`]
/// is.
#[verifier::rlimit(100)]
fn parse_station_head1(s: &str, i: usize) -> (r: Option<(String, String, usize)>)
    requires
        i <= s@.len(),
    ensures
        r matches Some(three) ==> {
            &&& i <= three.2 <= s@.len()
            &&& wf_text(three.0@) && wf_text(three.1@)
            &&& s@.subrange(i as int, three.2 as int) == "{\"province\":\""@ + three.0@
                + "\",\"operations\":\""@ + three.1@ + "\",\"name\":\""@
        },
        forall|v: StationV, rest: Seq<char>|
                    wf_station(v) && s@.skip(i as int) == #[trigger] (spec_station_json(v)
                        + rest) ==> (r matches Some(three) && three.0@ == v.province && three.1@
            == v.operations && three.2 as int == i + "{\"province\":\""@.len() + v.province.len() + "\",\"operations\":\""@.len()
            + v.operations.len() + "\",\"name\":\""@.len()),
{
    let n = s.unicode_len();
    let p1 = match expect_lit(s, i, "{\"province\":\"") {
        Some(x) => x,
        None => {
            proof {
                assert forall|v: StationV, rest: Seq<char>|
                    wf_station(v) && s@.skip(i as int) == #[trigger] (spec_station_json(v)
                        + rest) implies false by {
                    lemma_station_layout(s@, i as int, v, rest);
                    let d1 = i as int + "{\"province\":\""@.len();
                    let d2 = d1 + v.province.len();
                    let d3 = d2 + "\",\"operations\":\""@.len();
                    let d4 = d3 + v.operations.len();
                    let d5 = d4 + "\",\"name\":\""@.len();
                }
            }
            return None;
        },
    };
    let (province, q1) = match parse_text_field(s, p1) {
        Some(x) => x,
        None => {
            proof {
                assert forall|v: StationV, rest: Seq<char>|
                    wf_station(v) && s@.skip(i as int) == #[trigger] (spec_station_json(v)
                        + rest) implies false by {
                    lemma_station_layout(s@, i as int, v, rest);
                    let d1 = i as int + "{\"province\":\""@.len();
                    let d2 = d1 + v.province.len();
                    let d3 = d2 + "\",\"operations\":\""@.len();
                    let d4 = d3 + v.operations.len();
                    let d5 = d4 + "\",\"name\":\""@.len();
                    assert(p1 as int == d1);
                }
            }
            return None;
        },
    };
    let p2 = match expect_lit(s, q1, "\",\"operations\":\"") {
        Some(x) => x,
        None => {
            proof {
                assert forall|v: StationV, rest: Seq<char>|
                    wf_station(v) && s@.skip(i as int) == #[trigger] (spec_station_json(v)
                        + rest) implies false by {
                    lemma_station_layout(s@, i as int, v, rest);
                    let d1 = i as int + "{\"province\":\""@.len();
                    let d2 = d1 + v.province.len();
                    let d3 = d2 + "\",\"operations\":\""@.len();
                    let d4 = d3 + v.operations.len();
                    let d5 = d4 + "\",\"name\":\""@.len();
                    assert(p1 as int == d1);
                    if (q1 as int) < d2 {
                        assert(s@[q1 as int] != '"');
                        assert(false);
                    }
                    if (q1 as int) > d2 {
                        assert(s@[d2] != '"');
                        assert(false);
                    }
                    assert(q1 as int == d2);
                }
            }
            return None;
        },
    };
    let (operations, q2) = match parse_text_field(s, p2) {
        Some(x) => x,
        None => {
            proof {
                assert forall|v: StationV, rest: Seq<char>|
                    wf_station(v) && s@.skip(i as int) == #[trigger] (spec_station_json(v)
                        + rest) implies false by {
                    lemma_station_layout(s@, i as int, v, rest);
                    let d1 = i as int + "{\"province\":\""@.len();
                    let d2 = d1 + v.province.len();
                    let d3 = d2 + "\",\"operations\":\""@.len();
                    let d4 = d3 + v.operations.len();
                    let d5 = d4 + "\",\"name\":\""@.len();
                    assert(p1 as int == d1);
                    if (q1 as int) < d2 {
                        assert(s@[q1 as int] != '"');
                        assert(false);
                    }
                    if (q1 as int) > d2 {
                        assert(s@[d2] != '"');
                        assert(false);
                    }
                    assert(q1 as int == d2);
                    assert(p2 as int == d3);
                }
            }
            return None;
        },
    };
    let p3 = match expect_lit(s, q2, "\",\"name\":\"") {
        Some(x) => x,
        None => {
            proof {
                assert forall|v: StationV, rest: Seq<char>|
                    wf_station(v) && s@.skip(i as int) == #[trigger] (spec_station_json(v)
                        + rest) implies false by {
                    lemma_station_layout(s@, i as int, v, rest);
                    let d1 = i as int + "{\"province\":\""@.len();
                    let d2 = d1 + v.province.len();
                    let d3 = d2 + "\",\"operations\":\""@.len();
                    let d4 = d3 + v.operations.len();
                    let d5 = d4 + "\",\"name\":\""@.len();
                    assert(p1 as int == d1);
                    if (q1 as int) < d2 {
                        assert(s@[q1 as int] != '"');
                        assert(false);
                    }
                    if (q1 as int) > d2 {
                        assert(s@[d2] != '"');
                        assert(false);
                    }
                    assert(q1 as int == d2);
                    assert(p2 as int == d3);
                    if (q2 as int) < d4 {
                        assert(s@[q2 as int] != '"');
                        assert(false);
                    }
                    if (q2 as int) > d4 {
                        assert(s@[d4] != '"');
                        assert(false);
                    }
                    assert(q2 as int == d4);
                }
            }
            return None;
        },
    };
    proof {
        lemma_cat(s@, i as int, p1 as int, q1 as int);
        lemma_cat(s@, i as int, q1 as int, p2 as int);
        lemma_cat(s@, i as int, p2 as int, q2 as int);
        lemma_cat(s@, i as int, q2 as int, p3 as int);
        assert(s@.subrange(i as int, p3 as int) == "{\"province\":\""@ + province@
            + "\",\"operations\":\""@ + operations@ + "\",\"name\":\""@);
        assert forall|v: StationV, rest: Seq<char>|
                    wf_station(v) && s@.skip(i as int) == #[trigger] (spec_station_json(v)
                        + rest) implies (province@ == v.province && operations@ == v.operations && p3 as int
            == i + "{\"province\":\""@.len() + v.province.len() + "\",\"operations\":\""@.len()
            + v.operations.len() + "\",\"name\":\""@.len()) by {
                    lemma_station_layout(s@, i as int, v, rest);
                    let d1 = i as int + "{\"province\":\""@.len();
                    let d2 = d1 + v.province.len();
                    let d3 = d2 + "\",\"operations\":\""@.len();
                    let d4 = d3 + v.operations.len();
                    let d5 = d4 + "\",\"name\":\""@.len();
                    assert(p1 as int == d1);
                    if (q1 as int) < d2 {
                        assert(s@[q1 as int] != '"');
                        assert(false);
                    }
                    if (q1 as int) > d2 {
                        assert(s@[d2] != '"');
                        assert(false);
                    }
                    assert(q1 as int == d2);
                    assert(p2 as int == d3);
                    if (q2 as int) < d4 {
                        assert(s@[q2 as int] != '"');
                        assert(false);
                    }
                    if (q2 as int) > d4 {
                        assert(s@[d4] != '"');
                        assert(false);
                    }
                    assert(q2 as int == d4);
                    assert(p3 as int == d5);
        }
    }
    Some((province, operations, p3))
}

/// The name field of a canonical station record, read from `p3v` up to
/// the opening of the coordinate array.  `gi` carries the record's start.
#[verifier::rlimit(100)]
fn parse_station_head2(s: &str, p3v: usize, gi: Ghost<int>) -> (r: Option<(String, usize)>)
    requires
        p3v <= s@.len(),
    ensures
        r matches Some(two) ==> {
            &&& p3v <= two.1 <= s@.len()
            &&& wf_text(two.0@)
            &&& s@.subrange(p3v as int, two.1 as int) == two.0@ + "\",\"latlng\":["@
        },
        forall|v: StationV, rest: Seq<char>|
                    wf_station(v) && 0 <= gi@ <= s@.len() && s@.skip(gi@)
                        == #[trigger] (spec_station_json(v) + rest) && p3v as int == gi@ + "{\"province\":\""@.len() + v.province.len() + "\",\"operations\":\""@.len()
            + v.operations.len() + "\",\"name\":\""@.len() ==> (r matches Some(two) && two.0@ == v.name && two.1 as int == gi@
            + "{\"province\":\""@.len() + v.province.len() + "\",\"operations\":\""@.len()
            + v.operations.len() + "\",\"name\":\""@.len() + v.name.len()
            + "\",\"latlng\":["@.len()),
{
    let n = s.unicode_len();
    let (name, q3) = match parse_text_field(s, p3v) {
        Some(x) => x,
        None => {
            proof {
                assert forall|v: StationV, rest: Seq<char>|
                    wf_station(v) && 0 <= gi@ <= s@.len() && s@.skip(gi@)
                        == #[trigger] (spec_station_json(v) + rest) && p3v as int == gi@ + "{\"province\":\""@.len() + v.province.len() + "\",\"operations\":\""@.len()
            + v.operations.len() + "\",\"name\":\""@.len() implies false by {
                    lemma_station_layout(s@, gi@, v, rest);
                    let d1 = gi@ + "{\"province\":\""@.len();
                    let d2 = d1 + v.province.len();
                    let d3 = d2 + "\",\"operations\":\""@.len();
                    let d4 = d3 + v.operations.len();
                    let d5 = d4 + "\",\"name\":\""@.len();
                    let d6 = d5 + v.name.len();
                    let d7 = d6 + "\",\"latlng\":["@.len();
                    assert(p3v as int == d5);
                }
            }
            return None;
        },
    };
    let p4 = match expect_lit(s, q3, "\",\"latlng\":[") {
        Some(x) => x,
        None => {
            proof {
                assert forall|v: StationV, rest: Seq<char>|
                    wf_station(v) && 0 <= gi@ <= s@.len() && s@.skip(gi@)
                        == #[trigger] (spec_station_json(v) + rest) && p3v as int == gi@ + "{\"province\":\""@.len() + v.province.len() + "\",\"operations\":\""@.len()
            + v.operations.len() + "\",\"name\":\""@.len() implies false by {
                    lemma_station_layout(s@, gi@, v, rest);
                    let d1 = gi@ + "{\"province\":\""@.len();
                    let d2 = d1 + v.province.len();
                    let d3 = d2 + "\",\"operations\":\""@.len();
                    let d4 = d3 + v.operations.len();
                    let d5 = d4 + "\",\"name\":\""@.len();
                    let d6 = d5 + v.name.len();
                    let d7 = d6 + "\",\"latlng\":["@.len();
                    assert(p3v as int == d5);
                    if (q3 as int) < d6 {
                        assert(s@[q3 as int] != '"');
                        assert(false);
                    }
                    if (q3 as int) > d6 {
                        assert(s@[d6] != '"');
                        assert(false);
                    }
                    assert(q3 as int == d6);
                }
            }
            return None;
        },
    };
    proof {
        lemma_cat(s@, p3v as int, q3 as int, p4 as int);
        assert(s@.subrange(p3v as int, p4 as int) == name@ + "\",\"latlng\":["@);
        assert forall|v: StationV, rest: Seq<char>|
                    wf_station(v) && 0 <= gi@ <= s@.len() && s@.skip(gi@)
                        == #[trigger] (spec_station_json(v) + rest) && p3v as int == gi@ + "{\"province\":\""@.len() + v.province.len() + "\",\"operations\":\""@.len()
            + v.operations.len() + "\",\"name\":\""@.len() implies (name@ == v.name && p4 as int == gi@ + "{\"province\":\""@.len() + v.province.len() + "\",\"operations\":\""@.len()
            + v.operations.len() + "\",\"name\":\""@.len() + v.name.len()
            + "\",\"latlng\":["@.len()) by {
                    lemma_station_layout(s@, gi@, v, rest);
                    let d1 = gi@ + "{\"province\":\""@.len();
                    let d2 = d1 + v.province.len();
                    let d3 = d2 + "\",\"operations\":\""@.len();
                    let d4 = d3 + v.operations.len();
                    let d5 = d4 + "\",\"name\":\""@.len();
                    let d6 = d5 + v.name.len();
                    let d7 = d6 + "\",\"latlng\":["@.len();
                    assert(p3v as int == d5);
                    if (q3 as int) < d6 {
                        assert(s@[q3 as int] != '"');
                        assert(false);
                    }
                    if (q3 as int) > d6 {
                        assert(s@[d6] != '"');
                        assert(false);
                    }
                    assert(q3 as int == d6);
                    assert(p4 as int == d7);
        }
    }
    Some((name, p4))
}

/// The tail of a canonical station record: the six-hour flag and the
/// identifier, read from `jl` (the end of the coordinate run) to the
/// closing brace.  `gi` carries the record's start.
#[verifier::rlimit(100)]
fn parse_station_head3(s: &str, jl: usize, gi: Ghost<int>) -> (r: Option<(String, String, usize)>)
    requires
        jl <= s@.len(),
    ensures
        r matches Some(three) ==> {
            &&& jl <= three.2 <= s@.len()
            &&& wf_text(three.0@) && wf_text(three.1@)
            &&& s@.subrange(jl as int, three.2 as int) == "],\"6hrs_data\":\""@ + three.0@
                + "\",\"id\":\""@ + three.1@ + "\"}"@
        },
        forall|v: StationV, rest: Seq<char>|
                    wf_station(v) && 0 <= gi@ <= s@.len() && s@.skip(gi@)
                        == #[trigger] (spec_station_json(v) + rest) && jl as int == gi@ + "{\"province\":\""@.len() + v.province.len() + "\",\"operations\":\""@.len()
            + v.operations.len() + "\",\"name\":\""@.len() + v.name.len()
            + "\",\"latlng\":["@.len() + join_comma(v.latlng).len() ==> (r matches Some(three) && three.0@ == v.six_hrs_data && three.1@
            == v.id && three.2 as int == gi@ + spec_station_json(v).len()),
{
    let n = s.unicode_len();
    let p5 = match expect_lit(s, jl, "],\"6hrs_data\":\"") {
        Some(x) => x,
        None => {
            proof {
                assert forall|v: StationV, rest: Seq<char>|
                    wf_station(v) && 0 <= gi@ <= s@.len() && s@.skip(gi@)
                        == #[trigger] (spec_station_json(v) + rest) && jl as int == gi@ + "{\"province\":\""@.len() + v.province.len() + "\",\"operations\":\""@.len()
            + v.operations.len() + "\",\"name\":\""@.len() + v.name.len()
            + "\",\"latlng\":["@.len() + join_comma(v.latlng).len() implies false by {
                    lemma_station_layout(s@, gi@, v, rest);
                    let d1 = gi@ + "{\"province\":\""@.len();
                    let d2 = d1 + v.province.len();
                    let d3 = d2 + "\",\"operations\":\""@.len();
                    let d4 = d3 + v.operations.len();
                    let d5 = d4 + "\",\"name\":\""@.len();
                    let d6 = d5 + v.name.len();
                    let d7 = d6 + "\",\"latlng\":["@.len();
                    let d8 = d7 + join_comma(v.latlng).len();
                    let d9 = d8 + "],\"6hrs_data\":\""@.len();
                    let d10 = d9 + v.six_hrs_data.len();
                    let d11 = d10 + "\",\"id\":\""@.len();
                    let d12 = d11 + v.id.len();
                    let d13 = d12 + "\"}"@.len();
                    assert(jl as int == d8);
                }
            }
            return None;
        },
    };
    let (six_hrs_data, q5) = match parse_text_field(s, p5) {
        Some(x) => x,
        None => {
            proof {
                assert forall|v: StationV, rest: Seq<char>|
                    wf_station(v) && 0 <= gi@ <= s@.len() && s@.skip(gi@)
                        == #[trigger] (spec_station_json(v) + rest) && jl as int == gi@ + "{\"province\":\""@.len() + v.province.len() + "\",\"operations\":\""@.len()
            + v.operations.len() + "\",\"name\":\""@.len() + v.name.len()
            + "\",\"latlng\":["@.len() + join_comma(v.latlng).len() implies false by {
                    lemma_station_layout(s@, gi@, v, rest);
                    let d1 = gi@ + "{\"province\":\""@.len();
                    let d2 = d1 + v.province.len();
                    let d3 = d2 + "\",\"operations\":\""@.len();
                    let d4 = d3 + v.operations.len();
                    let d5 = d4 + "\",\"name\":\""@.len();
                    let d6 = d5 + v.name.len();
                    let d7 = d6 + "\",\"latlng\":["@.len();
                    let d8 = d7 + join_comma(v.latlng).len();
                    let d9 = d8 + "],\"6hrs_data\":\""@.len();
                    let d10 = d9 + v.six_hrs_data.len();
                    let d11 = d10 + "\",\"id\":\""@.len();
                    let d12 = d11 + v.id.len();
                    let d13 = d12 + "\"}"@.len();
                    assert(jl as int == d8);
                    assert(p5 as int == d9);
                }
            }
            return None;
        },
    };
    let p6 = match expect_lit(s, q5, "\",\"id\":\"") {
        Some(x) => x,
        None => {
            proof {
                assert forall|v: StationV, rest: Seq<char>|
                    wf_station(v) && 0 <= gi@ <= s@.len() && s@.skip(gi@)
                        == #[trigger] (spec_station_json(v) + rest) && jl as int == gi@ + "{\"province\":\""@.len() + v.province.len() + "\",\"operations\":\""@.len()
            + v.operations.len() + "\",\"name\":\""@.len() + v.name.len()
            + "\",\"latlng\":["@.len() + join_comma(v.latlng).len() implies false by {
                    lemma_station_layout(s@, gi@, v, rest);
                    let d1 = gi@ + "{\"province\":\""@.len();
                    let d2 = d1 + v.province.len();
                    let d3 = d2 + "\",\"operations\":\""@.len();
                    let d4 = d3 + v.operations.len();
                    let d5 = d4 + "\",\"name\":\""@.len();
                    let d6 = d5 + v.name.len();
                    let d7 = d6 + "\",\"latlng\":["@.len();
                    let d8 = d7 + join_comma(v.latlng).len();
                    let d9 = d8 + "],\"6hrs_data\":\""@.len();
                    let d10 = d9 + v.six_hrs_data.len();
                    let d11 = d10 + "\",\"id\":\""@.len();
                    let d12 = d11 + v.id.len();
                    let d13 = d12 + "\"}"@.len();
                    assert(jl as int == d8);
                    assert(p5 as int == d9);
                    if (q5 as int) < d10 {
                        assert(s@[q5 as int] != '"');
                        assert(false);
                    }
                    if (q5 as int) > d10 {
                        assert(s@[d10] != '"');
                        assert(false);
                    }
                    assert(q5 as int == d10);
                }
            }
            return None;
        },
    };
    let (id, q6) = match parse_text_field(s, p6) {
        Some(x) => x,
        None => {
            proof {
                assert forall|v: StationV, rest: Seq<char>|
                    wf_station(v) && 0 <= gi@ <= s@.len() && s@.skip(gi@)
                        == #[trigger] (spec_station_json(v) + rest) && jl as int == gi@ + "{\"province\":\""@.len() + v.province.len() + "\",\"operations\":\""@.len()
            + v.operations.len() + "\",\"name\":\""@.len() + v.name.len()
            + "\",\"latlng\":["@.len() + join_comma(v.latlng).len() implies false by {
                    lemma_station_layout(s@, gi@, v, rest);
                    let d1 = gi@ + "{\"province\":\""@.len();
                    let d2 = d1 + v.province.len();
                    let d3 = d2 + "\",\"operations\":\""@.len();
                    let d4 = d3 + v.operations.len();
                    let d5 = d4 + "\",\"name\":\""@.len();
                    let d6 = d5 + v.name.len();
                    let d7 = d6 + "\",\"latlng\":["@.len();
                    let d8 = d7 + join_comma(v.latlng).len();
                    let d9 = d8 + "],\"6hrs_data\":\""@.len();
                    let d10 = d9 + v.six_hrs_data.len();
                    let d11 = d10 + "\",\"id\":\""@.len();
                    let d12 = d11 + v.id.len();
                    let d13 = d12 + "\"}"@.len();
                    assert(jl as int == d8);
                    assert(p5 as int == d9);
                    if (q5 as int) < d10 {
                        assert(s@[q5 as int] != '"');
                        assert(false);
                    }
                    if (q5 as int) > d10 {
                        assert(s@[d10] != '"');
                        assert(false);
                    }
                    assert(q5 as int == d10);
                    assert(p6 as int == d11);
                }
            }
            return None;
        },
    };
    let p7 = match expect_lit(s, q6, "\"}") {
        Some(x) => x,
        None => {
            proof {
                assert forall|v: StationV, rest: Seq<char>|
                    wf_station(v) && 0 <= gi@ <= s@.len() && s@.skip(gi@)
                        == #[trigger] (spec_station_json(v) + rest) && jl as int == gi@ + "{\"province\":\""@.len() + v.province.len() + "\",\"operations\":\""@.len()
            + v.operations.len() + "\",\"name\":\""@.len() + v.name.len()
            + "\",\"latlng\":["@.len() + join_comma(v.latlng).len() implies false by {
                    lemma_station_layout(s@, gi@, v, rest);
                    let d1 = gi@ + "{\"province\":\""@.len();
                    let d2 = d1 + v.province.len();
                    let d3 = d2 + "\",\"operations\":\""@.len();
                    let d4 = d3 + v.operations.len();
                    let d5 = d4 + "\",\"name\":\""@.len();
                    let d6 = d5 + v.name.len();
                    let d7 = d6 + "\",\"latlng\":["@.len();
                    let d8 = d7 + join_comma(v.latlng).len();
                    let d9 = d8 + "],\"6hrs_data\":\""@.len();
                    let d10 = d9 + v.six_hrs_data.len();
                    let d11 = d10 + "\",\"id\":\""@.len();
                    let d12 = d11 + v.id.len();
                    let d13 = d12 + "\"}"@.len();
                    assert(jl as int == d8);
                    assert(p5 as int == d9);
                    if (q5 as int) < d10 {
                        assert(s@[q5 as int] != '"');
                        assert(false);
                    }
                    if (q5 as int) > d10 {
                        assert(s@[d10] != '"');
                        assert(false);
                    }
                    assert(q5 as int == d10);
                    assert(p6 as int == d11);
                    if (q6 as int) < d12 {
                        assert(s@[q6 as int] != '"');
                        assert(false);
                    }
                    if (q6 as int) > d12 {
                        assert(s@[d12] != '"');
                        assert(false);
                    }
                    assert(q6 as int == d12);
                }
            }
            return None;
        },
    };
    proof {
        lemma_cat(s@, jl as int, p5 as int, q5 as int);
        lemma_cat(s@, jl as int, q5 as int, p6 as int);
        lemma_cat(s@, jl as int, p6 as int, q6 as int);
        lemma_cat(s@, jl as int, q6 as int, p7 as int);
        assert(s@.subrange(jl as int, p7 as int) == "],\"6hrs_data\":\""@ + six_hrs_data@
            + "\",\"id\":\""@ + id@ + "\"}"@);
        assert forall|v: StationV, rest: Seq<char>|
                    wf_station(v) && 0 <= gi@ <= s@.len() && s@.skip(gi@)
                        == #[trigger] (spec_station_json(v) + rest) && jl as int == gi@ + "{\"province\":\""@.len() + v.province.len() + "\",\"operations\":\""@.len()
            + v.operations.len() + "\",\"name\":\""@.len() + v.name.len()
            + "\",\"latlng\":["@.len() + join_comma(v.latlng).len() implies (six_hrs_data@ == v.six_hrs_data && id@ == v.id && p7 as int == gi@
            + spec_station_json(v).len()) by {
                    lemma_station_layout(s@, gi@, v, rest);
                    let d1 = gi@ + "{\"province\":\""@.len();
                    let d2 = d1 + v.province.len();
                    let d3 = d2 + "\",\"operations\":\""@.len();
                    let d4 = d3 + v.operations.len();
                    let d5 = d4 + "\",\"name\":\""@.len();
                    let d6 = d5 + v.name.len();
                    let d7 = d6 + "\",\"latlng\":["@.len();
                    let d8 = d7 + join_comma(v.latlng).len();
                    let d9 = d8 + "],\"6hrs_data\":\""@.len();
                    let d10 = d9 + v.six_hrs_data.len();
                    let d11 = d10 + "\",\"id\":\""@.len();
                    let d12 = d11 + v.id.len();
                    let d13 = d12 + "\"}"@.len();
                    assert(jl as int == d8);
                    assert(p5 as int == d9);
                    if (q5 as int) < d10 {
                        assert(s@[q5 as int] != '"');
                        assert(false);
                    }
                    if (q5 as int) > d10 {
                        assert(s@[d10] != '"');
                        assert(false);
                    }
                    assert(q5 as int == d10);
                    assert(p6 as int == d11);
                    if (q6 as int) < d12 {
                        assert(s@[q6 as int] != '"');
                        assert(false);
                    }
                    if (q6 as int) > d12 {
                        assert(s@[d12] != '"');
                        assert(false);
                    }
                    assert(q6 as int == d12);
                    assert(p7 as int == d13);
        }
    }
    Some((six_hrs_data, id, p7))
}

/// One station record starting at `i`.  Two-sided: on success the
/// consumed segment is exactly the canonical text of the returned station,
/// and a canonical record at `i` is always accepted and returned verbatim.
#[verifier::rlimit(100)]
fn parse_station_at(s: &str, i: usize) -> (r: Option<(Station, usize)>)
    requires
        i <= s@.len(),
    ensures
        r matches Some(pair) ==> {
            &&& i <= pair.1 <= s@.len()
            &&& wf_station(pair.0@)
            &&& s@.subrange(i as int, pair.1 as int) == spec_station_json(pair.0@)
        },
        forall|v: StationV, rest: Seq<char>|
                    wf_station(v) && s@.skip(i as int) == #[trigger] (spec_station_json(v)
                        + rest) ==> (r matches Some(pair) && pair.0@ == v && pair.1 == i
            + spec_station_json(v).len()),
{
    let n = s.unicode_len();
    let (province, operations, p3v) = match parse_station_head1(s, i) {
        Some(x) => x,
        None => {
            proof {
                assert forall|v: StationV, rest: Seq<char>|
                    wf_station(v) && s@.skip(i as int) == #[trigger] (spec_station_json(v)
                        + rest) implies false by {}
            }
            return None;
        },
    };
    let (name, p4) = match parse_station_head2(s, p3v, Ghost(i as int)) {
        Some(x) => x,
        None => {
            proof {
                assert forall|v: StationV, rest: Seq<char>|
                    wf_station(v) && s@.skip(i as int) == #[trigger] (spec_station_json(v)
                        + rest) implies false by {}
            }
            return None;
        },
    };
    let mut latlng: Vec<String> = Vec::new();
    let jl: usize;
    if p4 < n && s.get_char(p4) == ']' {
        jl = p4;
        proof {
            assert(latlng.deep_view() =~= Seq::<Seq<char>>::empty());
            assert(s@.subrange(p4 as int, jl as int) =~= join_comma(latlng.deep_view()));
            assert forall|v: StationV, rest: Seq<char>|
                    wf_station(v) && s@.skip(i as int) == #[trigger] (spec_station_json(v)
                        + rest) implies (latlng.deep_view() == v.latlng && jl as int == i
                + "{\"province\":\""@.len() + v.province.len() + "\",\"operations\":\""@.len()
            + v.operations.len() + "\",\"name\":\""@.len() + v.name.len()
            + "\",\"latlng\":["@.len() + join_comma(v.latlng).len()) by {
                    lemma_station_layout(s@, i as int, v, rest);
                    let d1 = i as int + "{\"province\":\""@.len();
                    let d2 = d1 + v.province.len();
                    let d3 = d2 + "\",\"operations\":\""@.len();
                    let d4 = d3 + v.operations.len();
                    let d5 = d4 + "\",\"name\":\""@.len();
                    let d6 = d5 + v.name.len();
                    let d7 = d6 + "\",\"latlng\":["@.len();
                    let d8 = d7 + join_comma(v.latlng).len();
                    assert(p4 as int == d7);
                    if v.latlng.len() >= 1 {
                        assert(is_num_char(s@[d7]));
                        assert(false);
                    }
                    assert(latlng.deep_view() =~= v.latlng);
            }
        }
    } else {
        let (ri, gl) = parse_num_items(s, p4, &mut latlng);
        proof {
            assert forall|v: StationV, rest: Seq<char>|
                    wf_station(v) && s@.skip(i as int) == #[trigger] (spec_station_json(v)
                        + rest) implies (ri matches Some(jj) && gl@ == v.latlng && latlng.deep_view()
                == v.latlng && jj as int == i + "{\"province\":\""@.len() + v.province.len() + "\",\"operations\":\""@.len()
            + v.operations.len() + "\",\"name\":\""@.len() + v.name.len()
            + "\",\"latlng\":["@.len() + join_comma(v.latlng).len()) by {
                    lemma_station_layout(s@, i as int, v, rest);
                    let d1 = i as int + "{\"province\":\""@.len();
                    let d2 = d1 + v.province.len();
                    let d3 = d2 + "\",\"operations\":\""@.len();
                    let d4 = d3 + v.operations.len();
                    let d5 = d4 + "\",\"name\":\""@.len();
                    let d6 = d5 + v.name.len();
                    let d7 = d6 + "\",\"latlng\":["@.len();
                    let d8 = d7 + join_comma(v.latlng).len();
                    let d9 = d8 + "],\"6hrs_data\":\""@.len();
                    let d10 = d9 + v.six_hrs_data.len();
                    let d11 = d10 + "\",\"id\":\""@.len();
                    let d12 = d11 + v.id.len();
                    let d13 = d12 + "\"}"@.len();
                    assert(p4 as int == d7);
                    if v.latlng.len() == 0 {
                        assert(s@[d7] == ']');
                        assert(false);
                    }
                    assert(s@.skip(p4 as int) =~= s@.subrange(p4 as int, s@.len() as int));
                    lemma_cat(s@, d7, d8, s@.len() as int);
                    assert(s@.skip(p4 as int) == join_comma(v.latlng) + s@.subrange(
                        d8,
                        s@.len() as int,
                    ));
                    assert(s@.subrange(d8, s@.len() as int).len() > 0);
                    assert(s@.subrange(d8, s@.len() as int)[0] == s@[d8]);
                    assert(s@[d8] == ']');
                    assert(gl@ == v.latlng);
                    assert(latlng.deep_view() =~= Seq::<Seq<char>>::empty() + gl@);
                    assert(latlng.deep_view() == v.latlng);
            }
        }
        jl = match ri {
            Some(x) => x,
            None => {
                proof {
                    assert forall|v: StationV, rest: Seq<char>|
                    wf_station(v) && s@.skip(i as int) == #[trigger] (spec_station_json(v)
                        + rest) implies false by {}
                }
                return None;
            },
        };
        proof {
            assert(latlng.deep_view() =~= gl@);
        }
    }
    let (six_hrs_data, id, p7) = match parse_station_head3(s, jl, Ghost(i as int)) {
        Some(x) => x,
        None => {
            proof {
                assert forall|v: StationV, rest: Seq<char>|
                    wf_station(v) && s@.skip(i as int) == #[trigger] (spec_station_json(v)
                        + rest) implies false by {}
            }
            return None;
        },
    };
    let st = Station { province, operations, name, latlng, six_hrs_data, id };
    proof {
        assert(st@.latlng =~= st.latlng.deep_view());
        lemma_cat(s@, i as int, p3v as int, p4 as int);
        lemma_cat(s@, i as int, p4 as int, jl as int);
        lemma_cat(s@, i as int, jl as int, p7 as int);
        assert(s@.subrange(i as int, p7 as int) =~= spec_station_json(st@));
        assert forall|v: StationV, rest: Seq<char>|
                    wf_station(v) && s@.skip(i as int) == #[trigger] (spec_station_json(v)
                        + rest) implies (st@ == v && p7 == i + spec_station_json(v).len()) by {
            assert(st@.province == v.province);
            assert(st@.operations == v.operations);
            assert(st@.name == v.name);
            assert(st@.latlng == v.latlng);
            assert(st@.six_hrs_data == v.six_hrs_data);
            assert(st@.id == v.id);
            assert(st@ == v);
        }
    }
    Some((st, p7))
}

/// The first record of a joined station run, and what follows it.
proof fn lemma_stations_head(s: Seq<char>, i: int, items2: Seq<StationV>, rest: Seq<char>)
    requires
        0 <= i <= s.len(),
        items2.len() >= 1,
        forall|t: int| 0 <= t < items2.len() ==> wf_station(#[trigger] items2[t]),
        s.skip(i) == spec_stations_json(items2) + rest,
    ensures
        wf_station(items2[0]),
        items2.len() == 1 ==> spec_stations_json(items2) == spec_station_json(items2[0])
            && s.skip(i) == spec_station_json(items2[0]) + rest,
        items2.len() > 1 ==> spec_stations_json(items2).len() == spec_station_json(
            items2[0],
        ).len() + 1 + spec_stations_json(items2.drop_first()).len() && s.skip(i)
            == spec_station_json(items2[0]) + (seq![','] + (spec_stations_json(
            items2.drop_first(),
        ) + rest)),
{
    let texts = items2.map_values(|v: StationV| spec_station_json(v));
    assert(texts[0] == spec_station_json(items2[0]));
    if items2.len() == 1 {
        assert(join_comma(texts) == texts[0]);
    } else {
        let join2 = spec_stations_json(items2.drop_first());
        assert(texts.drop_first() =~= items2.drop_first().map_values(
            |v: StationV| spec_station_json(v),
        ));
        assert(join_comma(texts) == texts[0] + seq![','] + join_comma(texts.drop_first()));
        let lhs = (texts[0] + seq![','] + join2) + rest;
        let rhs = texts[0] + (seq![','] + (join2 + rest));
        assert(lhs =~= rhs);
        assert(s.skip(i) == rhs);
    }
}

/// One or more comma-separated station records starting at `i`, pushed
/// onto `acc` in order; on success the consumed segment is exactly the
/// joined canonical texts.
fn parse_station_items(s: &str, i: usize, acc: &mut Vec<Station>) -> (r: (
    Option<usize>,
    Ghost<Seq<StationV>>,
))
    requires
        i <= s@.len(),
    ensures
        r.0 matches Some(j) ==> {
            let items = r.1@;
            &&& i <= j <= s@.len()
            &&& final(acc).deep_view() == old(acc).deep_view() + items
            &&& items.len() >= 1
            &&& forall|t: int| 0 <= t < items.len() ==> wf_station(#[trigger] items[t])
            &&& s@.subrange(i as int, j as int) == spec_stations_json(items)
        },
        forall|items2: Seq<StationV>, rest: Seq<char>|
            items2.len() >= 1 && (forall|t: int|
                0 <= t < items2.len() ==> wf_station(#[trigger] items2[t])) && s@.skip(i as int)
                == #[trigger] (spec_stations_json(items2) + rest) && rest.len() > 0 && rest[0]
                == ']' ==> (r.0 matches Some(j) && r.1@ == items2 && j == i
                + spec_stations_json(items2).len()),
    decreases s@.len() - i,
{
    let n = s.unicode_len();
    let (st, j) = match parse_station_at(s, i) {
        Some(x) => x,
        None => {
            proof {
                assert forall|items2: Seq<StationV>, rest: Seq<char>|
                items2.len() >= 1 && (forall|t: int|
                    0 <= t < items2.len() ==> wf_station(#[trigger] items2[t])) && s@.skip(
                    i as int,
                ) == #[trigger] (spec_stations_json(items2) + rest) && rest.len() > 0 && rest[0]
                    == ']' implies false by {
                    lemma_stations_head(s@, i as int, items2, rest);
                }
            }
            return (None, Ghost(Seq::empty()));
        },
    };
    let ghost stv: StationV = st@;
    let ghost before: Seq<StationV> = acc.deep_view();
    acc.push(st);
    proof {
        assert(acc.deep_view() =~= before + seq![stv]);
    }
    if j < n && s.get_char(j) == ',' {
        let (r2, g2) = parse_station_items(s, j + 1, acc);
        proof {
            assert forall|items2: Seq<StationV>, rest: Seq<char>|
                items2.len() >= 1 && (forall|t: int|
                    0 <= t < items2.len() ==> wf_station(#[trigger] items2[t])) && s@.skip(
                    i as int,
                ) == #[trigger] (spec_stations_json(items2) + rest) && rest.len() > 0 && rest[0]
                    == ']' implies (r2 matches Some(jj) && g2@ == items2.drop_first() && stv
                == items2[0] && jj == j + 1 + spec_stations_json(items2.drop_first()).len()
                && spec_stations_json(items2).len() == spec_station_json(items2[0]).len() + 1
                + spec_stations_json(items2.drop_first()).len()) by {
                lemma_stations_head(s@, i as int, items2, rest);
                if items2.len() == 1 {
                    assert(j == i + spec_station_json(items2[0]).len());
                    assert(s@.skip(i as int) =~= s@.subrange(i as int, s@.len() as int));
                    assert(s@.subrange(i as int, s@.len() as int) == spec_station_json(items2[0])
                        + rest);
                    lemma_peel(
                        s@,
                        i as int,
                        j as int,
                        s@.len() as int,
                        spec_station_json(items2[0]),
                        rest,
                    );
                    assert(s@.subrange(j as int, s@.len() as int)[0] == s@[j as int]);
                    assert(s@[j as int] == ']');
                    assert(false);
                } else {
                    let join2 = spec_stations_json(items2.drop_first());
                    let rest2 = seq![','] + (join2 + rest);
                    assert(j == i + spec_station_json(items2[0]).len());
                    assert(s@.skip(i as int) =~= s@.subrange(i as int, s@.len() as int));
                    assert(s@.subrange(i as int, s@.len() as int) == spec_station_json(items2[0])
                        + rest2);
                    lemma_peel(
                        s@,
                        i as int,
                        j as int,
                        s@.len() as int,
                        spec_station_json(items2[0]),
                        rest2,
                    );
                    lemma_peel(
                        s@,
                        j as int,
                        j as int + 1,
                        s@.len() as int,
                        seq![','],
                        join2 + rest,
                    );
                    assert(s@.skip(j as int + 1) =~= s@.subrange(j as int + 1, s@.len() as int));
                    assert(s@.skip(j as int + 1) == join2 + rest);
                    assert(items2.drop_first().len() >= 1);
                    assert forall|t: int| 0 <= t < items2.drop_first().len() implies wf_station(
                        #[trigger] items2.drop_first()[t],
                    ) by {
                        assert(items2.drop_first()[t] == items2[t + 1]);
                    }
                    assert(s@.skip(j as int + 1) == spec_stations_json(items2.drop_first())
                        + rest);
                }
            }
        }
        match r2 {
            None => {
                proof {
                    assert forall|items2: Seq<StationV>, rest: Seq<char>|
                items2.len() >= 1 && (forall|t: int|
                    0 <= t < items2.len() ==> wf_station(#[trigger] items2[t])) && s@.skip(
                    i as int,
                ) == #[trigger] (spec_stations_json(items2) + rest) && rest.len() > 0 && rest[0]
                    == ']' implies false by {}
                }
                (None, Ghost(Seq::empty()))
            },
            Some(j2) => {
                let ghost items: Seq<StationV> = seq![stv] + g2@;
                proof {
                    assert(acc.deep_view() =~= before + items);
                    assert(items[0] == stv);
                    assert(items.drop_first() =~= g2@);
                    let texts = items.map_values(|v: StationV| spec_station_json(v));
                    assert(texts[0] == spec_station_json(stv));
                    assert(texts.drop_first() =~= g2@.map_values(
                        |v: StationV| spec_station_json(v),
                    ));
                    assert(s@.subrange(j as int, j as int + 1) =~= seq![',']);
                    lemma_cat(s@, i as int, j as int, j as int + 1);
                    lemma_cat(s@, i as int, j as int + 1, j2 as int);
                    assert(texts.len() >= 2);
                    assert(join_comma(texts) == texts[0] + seq![','] + join_comma(
                        texts.drop_first(),
                    ));
                    assert(s@.subrange(i as int, j2 as int) == spec_stations_json(items));
                    assert forall|t: int| 0 <= t < items.len() implies wf_station(
                        #[trigger] items[t],
                    ) by {
                        if t > 0 {
                            assert(items[t] == g2@[t - 1]);
                        }
                    }
                    assert forall|items2: Seq<StationV>, rest: Seq<char>|
                items2.len() >= 1 && (forall|t: int|
                    0 <= t < items2.len() ==> wf_station(#[trigger] items2[t])) && s@.skip(
                    i as int,
                ) == #[trigger] (spec_stations_json(items2) + rest) && rest.len() > 0 && rest[0]
                    == ']' implies (items == items2 && j2 == i + spec_stations_json(
                        items2,
                    ).len()) by {
                        assert(g2@ == items2.drop_first());
                        assert(stv == items2[0]);
                        assert(items =~= items2);
                    }
                }
                (Some(j2), Ghost(items))
            },
        }
    } else {
        let ghost items: Seq<StationV> = seq![stv];
        proof {
            assert(acc.deep_view() =~= before + items);
            let texts = items.map_values(|v: StationV| spec_station_json(v));
            assert(texts.len() == 1);
            assert(join_comma(texts) == texts[0]);
            assert(texts[0] == spec_station_json(stv));
            assert forall|items2: Seq<StationV>, rest: Seq<char>|
                items2.len() >= 1 && (forall|t: int|
                    0 <= t < items2.len() ==> wf_station(#[trigger] items2[t])) && s@.skip(
                    i as int,
                ) == #[trigger] (spec_stations_json(items2) + rest) && rest.len() > 0 && rest[0]
                    == ']' implies (items == items2 && j == i + spec_stations_json(
                items2,
            ).len()) by {
                lemma_stations_head(s@, i as int, items2, rest);
                if items2.len() > 1 {
                    let join2 = spec_stations_json(items2.drop_first());
                    let rest2 = seq![','] + (join2 + rest);
                    assert(j == i + spec_station_json(items2[0]).len());
                    assert(s@.skip(i as int) =~= s@.subrange(i as int, s@.len() as int));
                    assert(s@.subrange(i as int, s@.len() as int) == spec_station_json(items2[0])
                        + rest2);
                    lemma_peel(
                        s@,
                        i as int,
                        j as int,
                        s@.len() as int,
                        spec_station_json(items2[0]),
                        rest2,
                    );
                    assert(s@.subrange(j as int, s@.len() as int)[0] == s@[j as int]);
                    assert(rest2[0] == ',');
                    assert(s@[j as int] == ',');
                    assert(j < n);
                    assert(false);
                }
                assert(stv == items2[0]);
                assert(items =~= items2);
            }
        }
        (Some(j), Ghost(items))
    }
}

/// A canonical station record opens with a brace.
proof fn lemma_station_json_first(v: StationV)
    ensures
        spec_station_json(v).len() >= 1,
        spec_station_json(v)[0] == '{',
{
    reveal_strlit("{\"province\":\"");
    let l1 = "{\"province\":\""@;
    let c1 = l1 + v.province;
    let c2 = c1 + "\",\"operations\":\""@;
    let c3 = c2 + v.operations;
    let c4 = c3 + "\",\"name\":\""@;
    let c5 = c4 + v.name;
    let c6 = c5 + "\",\"latlng\":["@;
    let c7 = c6 + join_comma(v.latlng);
    let c8 = c7 + "],\"6hrs_data\":\""@;
    let c9 = c8 + v.six_hrs_data;
    let c10 = c9 + "\",\"id\":\""@;
    let c11 = c10 + v.id;
    assert(spec_station_json(v) == c11 + "\"}"@);
    assert(c1[0] == l1[0]);
    assert(c2[0] == c1[0]);
    assert(c3[0] == c2[0]);
    assert(c4[0] == c3[0]);
    assert(c5[0] == c4[0]);
    assert(c6[0] == c5[0]);
    assert(c7[0] == c6[0]);
    assert(c8[0] == c7[0]);
    assert(c9[0] == c8[0]);
    assert(c10[0] == c9[0]);
    assert(c11[0] == c10[0]);
    assert(spec_station_json(v)[0] == c11[0]);
}

/// Where each piece of a canonical station-list envelope stands in `s`.
proof fn lemma_station_list_layout(s: Seq<char>, xct: Seq<char>, xdet: Seq<char>, sts: Seq<StationV>)
    requires
        wf_num(xct),
        wf_text(xdet),
        forall|t: int| 0 <= t < sts.len() ==> wf_station(#[trigger] sts[t]),
        s == spec_station_list_json_raw(xct, xdet, sts),
    ensures
        ({
            let e1 = "{\"code\":"@.len() as int;
            let e2 = e1 + xct.len();
            let e3 = e2 + ",\"details\":\""@.len();
            let e4 = e3 + xdet.len();
            let e5 = e4 + "\",\"message\":["@.len();
            let e6 = e5 + spec_stations_json(sts).len();
            let e7 = e6 + "]}"@.len();
            &&& e7 == s.len()
            &&& e2 < e3 && e4 < e5 && e6 < e7
            &&& s.subrange(0, e1) == "{\"code\":"@
            &&& s.subrange(e1, e2) == xct
            &&& (forall|k: int| e1 <= k < e2 ==> is_num_char(#[trigger] s[k]))
            &&& s[e2] == ','
            &&& s.subrange(e2, e3) == ",\"details\":\""@
            &&& s.subrange(e3, e4) == xdet
            &&& (forall|k: int| e3 <= k < e4 ==> #[trigger] s[k] != '"')
            &&& s[e4] == '"'
            &&& s.subrange(e4, e5) == "\",\"message\":["@
            &&& s.subrange(e5, e6) == spec_stations_json(sts)
            &&& s.subrange(e6, e7) == "]}"@
            &&& s[e6] == ']'
            &&& (sts.len() == 0 ==> e5 == e6 && s[e5] == ']')
            &&& (sts.len() >= 1 ==> s[e5] == '{')
        }),
{
    let t1 = "{\"code\":"@;
    let t2 = ",\"details\":\""@;
    let t3 = "\",\"message\":["@;
    let t4 = "]}"@;
    reveal_strlit("{\"code\":");
    reveal_strlit(",\"details\":\"");
    reveal_strlit("\",\"message\":[");
    reveal_strlit("]}");
    let sj = spec_stations_json(sts);
    let c1 = t1 + xct;
    let c2 = c1 + t2;
    let c3 = c2 + xdet;
    let c4 = c3 + t3;
    let c5 = c4 + sj;
    assert(s == c5 + t4);
    assert(c1.len() == t1.len() + xct.len());
    assert(c2.len() == c1.len() + t2.len());
    assert(c3.len() == c2.len() + xdet.len());
    assert(c4.len() == c3.len() + t3.len());
    assert(c5.len() == c4.len() + sj.len());
    assert(s.len() == c5.len() + t4.len());
    let e1 = t1.len() as int;
    let e2 = e1 + xct.len();
    let e3 = e2 + t2.len();
    let e4 = e3 + xdet.len();
    let e5 = e4 + t3.len();
    let e6 = e5 + sj.len();
    let e7 = e6 + t4.len();
    assert(s.subrange(0, s.len() as int) =~= s);
    lemma_peel(s, 0, e6, e7, c5, t4);
    lemma_peel(s, 0, e5, e6, c4, sj);
    lemma_peel(s, 0, e4, e5, c3, t3);
    lemma_peel(s, 0, e3, e4, c2, xdet);
    lemma_peel(s, 0, e2, e3, c1, t2);
    lemma_peel(s, 0, e1, e2, t1, xct);
    assert(s.subrange(e2, e3)[0] == s[e2]);
    assert(t2[0] == ',');
    assert(s.subrange(e4, e5)[0] == s[e4]);
    assert(t3[0] == '"');
    assert(s.subrange(e6, e7)[0] == s[e6]);
    assert(t4[0] == ']');
    assert forall|k: int| e1 <= k < e2 implies is_num_char(#[trigger] s[k]) by {
        assert(s.subrange(e1, e2)[k - e1] == s[k]);
        assert(is_num_char(xct[k - e1]));
    }
    assert forall|k: int| e3 <= k < e4 implies #[trigger] s[k] != '"' by {
        assert(s.subrange(e3, e4)[k - e3] == s[k]);
        assert(xdet[k - e3] != '"');
    }
    if sts.len() == 0 {
        assert(sts.map_values(|v: StationV| spec_station_json(v)).len() == 0);
        assert(sj.len() == 0);
    } else {
        let texts = sts.map_values(|v: StationV| spec_station_json(v));
        assert(texts[0] == spec_station_json(sts[0]));
        lemma_station_json_first(sts[0]);
        if texts.len() == 1 {
            assert(sj == texts[0]);
        } else {
            assert(sj == texts[0] + seq![','] + join_comma(texts.drop_first()));
            assert(sj[0] == texts[0][0]);
        }
        assert(sj[0] == '{');
        assert(sj.len() >= 1);
        assert(s.subrange(e5, e6)[0] == s[e5]);
    }
}

/// The opening of a canonical station-list envelope: the code token and
/// the details field, read up to the station array.  Two-sided, as
/// [`parse_station_list`] is.
#[verifier::rlimit(100)]
fn parse_station_list_head(text: &str) -> (r: (Option<(String, usize)>, Ghost<Seq<char>>))
    ensures
        r.0 matches Some(two) ==> {
            &&& two.1 <= text@.len()
            &&& wf_num(r.1@)
            &&& wf_text(two.0@)
            &&& text@.subrange(0, two.1 as int) == "{\"code\":"@ + r.1@ + ",\"details\":\""@
                + two.0@ + "\",\"message\":["@
        },
        forall|xct: Seq<char>, xdet: Seq<char>, sts: Seq<StationV>|
                    wf_num(xct) && wf_text(xdet) && (forall|t: int|
                        0 <= t < sts.len() ==> wf_station(#[trigger] sts[t])) && text@
                        == #[trigger] spec_station_list_json_raw(xct, xdet, sts) ==> (r.0 matches Some(two) && r.1@ == xct && two.0@ == xdet
            && two.1 as int == "{\"code\":"@.len() + xct.len() + ",\"details\":\""@.len() + xdet.len()
                + "\",\"message\":["@.len()),
{
    let n = text.unicode_len();
    let p1 = match expect_lit(text, 0, "{\"code\":") {
        Some(x) => x,
        None => {
            proof {
                assert forall|xct: Seq<char>, xdet: Seq<char>, sts: Seq<StationV>|
                    wf_num(xct) && wf_text(xdet) && (forall|t: int|
                        0 <= t < sts.len() ==> wf_station(#[trigger] sts[t])) && text@
                        == #[trigger] spec_station_list_json_raw(xct, xdet, sts) implies false by {
                    lemma_station_list_layout(text@, xct, xdet, sts);
                    let e1 = "{\"code\":"@.len() as int;
                    let e2 = e1 + xct.len();
                    let e3 = e2 + ",\"details\":\""@.len();
                    let e4 = e3 + xdet.len();
                    let e5 = e4 + "\",\"message\":["@.len();
                    let e6 = e5 + spec_stations_json(sts).len();
                    let e7 = e6 + "]}"@.len();
                }
            }
            return (None, Ghost(Seq::empty()));
        },
    };
    let jc = scan_num_end(text, p1);
    if jc == p1 {
            proof {
                assert forall|xct: Seq<char>, xdet: Seq<char>, sts: Seq<StationV>|
                    wf_num(xct) && wf_text(xdet) && (forall|t: int|
                        0 <= t < sts.len() ==> wf_station(#[trigger] sts[t])) && text@
                        == #[trigger] spec_station_list_json_raw(xct, xdet, sts) implies false by {
                    lemma_station_list_layout(text@, xct, xdet, sts);
                    let e1 = "{\"code\":"@.len() as int;
                    let e2 = e1 + xct.len();
                    let e3 = e2 + ",\"details\":\""@.len();
                    let e4 = e3 + xdet.len();
                    let e5 = e4 + "\",\"message\":["@.len();
                    let e6 = e5 + spec_stations_json(sts).len();
                    let e7 = e6 + "]}"@.len();
                    assert(p1 as int == e1);
                    if (jc as int) < e2 {
                        assert(jc < text@.len());
                        assert(is_num_char(text@[jc as int]));
                        assert(!is_num_char(text@[jc as int]));
                        assert(false);
                    }
                    if (jc as int) > e2 {
                        assert(is_num_char(text@[e2]));
                        assert(false);
                    }
                    assert(jc as int == e2);
                }
            }
            return (None, Ghost(Seq::empty()));
    }
    let ghost ct: Seq<char> = text@.subrange(p1 as int, jc as int);
    proof {
        assert forall|t: int| 0 <= t < ct.len() implies is_num_char(#[trigger] ct[t]) by {
            assert(ct[t] == text@[p1 + t]);
        }
    }
    let p2 = match expect_lit(text, jc, ",\"details\":\"") {
        Some(x) => x,
        None => {
            proof {
                assert forall|xct: Seq<char>, xdet: Seq<char>, sts: Seq<StationV>|
                    wf_num(xct) && wf_text(xdet) && (forall|t: int|
                        0 <= t < sts.len() ==> wf_station(#[trigger] sts[t])) && text@
                        == #[trigger] spec_station_list_json_raw(xct, xdet, sts) implies false by {
                    lemma_station_list_layout(text@, xct, xdet, sts);
                    let e1 = "{\"code\":"@.len() as int;
                    let e2 = e1 + xct.len();
                    let e3 = e2 + ",\"details\":\""@.len();
                    let e4 = e3 + xdet.len();
                    let e5 = e4 + "\",\"message\":["@.len();
                    let e6 = e5 + spec_stations_json(sts).len();
                    let e7 = e6 + "]}"@.len();
                    assert(p1 as int == e1);
                    if (jc as int) < e2 {
                        assert(jc < text@.len());
                        assert(is_num_char(text@[jc as int]));
                        assert(!is_num_char(text@[jc as int]));
                        assert(false);
                    }
                    if (jc as int) > e2 {
                        assert(is_num_char(text@[e2]));
                        assert(false);
                    }
                    assert(jc as int == e2);
                }
            }
            return (None, Ghost(Seq::empty()));
        },
    };
    let (details, q2) = match parse_text_field(text, p2) {
        Some(x) => x,
        None => {
            proof {
                assert forall|xct: Seq<char>, xdet: Seq<char>, sts: Seq<StationV>|
                    wf_num(xct) && wf_text(xdet) && (forall|t: int|
                        0 <= t < sts.len() ==> wf_station(#[trigger] sts[t])) && text@
                        == #[trigger] spec_station_list_json_raw(xct, xdet, sts) implies false by {
                    lemma_station_list_layout(text@, xct, xdet, sts);
                    let e1 = "{\"code\":"@.len() as int;
                    let e2 = e1 + xct.len();
                    let e3 = e2 + ",\"details\":\""@.len();
                    let e4 = e3 + xdet.len();
                    let e5 = e4 + "\",\"message\":["@.len();
                    let e6 = e5 + spec_stations_json(sts).len();
                    let e7 = e6 + "]}"@.len();
                    assert(p1 as int == e1);
                    if (jc as int) < e2 {
                        assert(jc < text@.len());
                        assert(is_num_char(text@[jc as int]));
                        assert(!is_num_char(text@[jc as int]));
                        assert(false);
                    }
                    if (jc as int) > e2 {
                        assert(is_num_char(text@[e2]));
                        assert(false);
                    }
                    assert(jc as int == e2);
                    assert(p2 as int == e3);
                }
            }
            return (None, Ghost(Seq::empty()));
        },
    };
    let p3 = match expect_lit(text, q2, "\",\"message\":[") {
        Some(x) => x,
        None => {
            proof {
                assert forall|xct: Seq<char>, xdet: Seq<char>, sts: Seq<StationV>|
                    wf_num(xct) && wf_text(xdet) && (forall|t: int|
                        0 <= t < sts.len() ==> wf_station(#[trigger] sts[t])) && text@
                        == #[trigger] spec_station_list_json_raw(xct, xdet, sts) implies false by {
                    lemma_station_list_layout(text@, xct, xdet, sts);
                    let e1 = "{\"code\":"@.len() as int;
                    let e2 = e1 + xct.len();
                    let e3 = e2 + ",\"details\":\""@.len();
                    let e4 = e3 + xdet.len();
                    let e5 = e4 + "\",\"message\":["@.len();
                    let e6 = e5 + spec_stations_json(sts).len();
                    let e7 = e6 + "]}"@.len();
                    assert(p1 as int == e1);
                    if (jc as int) < e2 {
                        assert(jc < text@.len());
                        assert(is_num_char(text@[jc as int]));
                        assert(!is_num_char(text@[jc as int]));
                        assert(false);
                    }
                    if (jc as int) > e2 {
                        assert(is_num_char(text@[e2]));
                        assert(false);
                    }
                    assert(jc as int == e2);
                    assert(p2 as int == e3);
                    if (q2 as int) < e4 {
                        assert(text@[q2 as int] != '"');
                        assert(false);
                    }
                    if (q2 as int) > e4 {
                        assert(text@[e4] != '"');
                        assert(false);
                    }
                    assert(q2 as int == e4);
                }
            }
            return (None, Ghost(Seq::empty()));
        },
    };
    proof {
        lemma_cat(text@, 0, p1 as int, jc as int);
        lemma_cat(text@, 0, jc as int, p2 as int);
        lemma_cat(text@, 0, p2 as int, q2 as int);
        lemma_cat(text@, 0, q2 as int, p3 as int);
        assert(text@.subrange(0, p3 as int) == "{\"code\":"@ + ct + ",\"details\":\""@
            + details@ + "\",\"message\":["@);
        assert(wf_num(ct));
        assert forall|xct: Seq<char>, xdet: Seq<char>, sts: Seq<StationV>|
                    wf_num(xct) && wf_text(xdet) && (forall|t: int|
                        0 <= t < sts.len() ==> wf_station(#[trigger] sts[t])) && text@
                        == #[trigger] spec_station_list_json_raw(xct, xdet, sts) implies (ct == xct && details@ == xdet && p3 as int == "{\"code\":"@.len() + xct.len() + ",\"details\":\""@.len() + xdet.len()
                + "\",\"message\":["@.len()) by {
                    lemma_station_list_layout(text@, xct, xdet, sts);
                    let e1 = "{\"code\":"@.len() as int;
                    let e2 = e1 + xct.len();
                    let e3 = e2 + ",\"details\":\""@.len();
                    let e4 = e3 + xdet.len();
                    let e5 = e4 + "\",\"message\":["@.len();
                    let e6 = e5 + spec_stations_json(sts).len();
                    let e7 = e6 + "]}"@.len();
                    assert(p1 as int == e1);
                    if (jc as int) < e2 {
                        assert(jc < text@.len());
                        assert(is_num_char(text@[jc as int]));
                        assert(!is_num_char(text@[jc as int]));
                        assert(false);
                    }
                    if (jc as int) > e2 {
                        assert(is_num_char(text@[e2]));
                        assert(false);
                    }
                    assert(jc as int == e2);
                    assert(p2 as int == e3);
                    if (q2 as int) < e4 {
                        assert(text@[q2 as int] != '"');
                        assert(false);
                    }
                    if (q2 as int) > e4 {
                        assert(text@[e4] != '"');
                        assert(false);
                    }
                    assert(q2 as int == e4);
                    assert(p3 as int == e5);
        }
    }
    (Some((details, p3)), Ghost(ct))
}

/// Parses the station-list envelope and returns its stations, every field
/// verbatim and in order.  The contract is two-sided: on success the whole
/// input is exactly the canonical text of an envelope holding exactly the
/// returned stations, and conversely the canonical text of any well-formed
/// envelope is accepted and yields exactly its stations, whatever its
/// status code says.
#[verifier::rlimit(100)]
pub fn parse_station_list(text: &str) -> (r: Result<Vec<Station>, ParseError>)
    ensures
        r matches Ok(sts) ==> is_station_list_image(text@, sts.deep_view()),
        forall|sts2: Seq<StationV>| #[trigger] is_station_list_image(text@, sts2) ==> (
        r matches Ok(got) && got.deep_view() == sts2),
{
    let n = text.unicode_len();
    let (rh, gct) = parse_station_list_head(text);
    let (details, p3) = match rh {
        Some(x) => x,
        None => {
            proof {
                assert forall|xct: Seq<char>, xdet: Seq<char>, sts: Seq<StationV>|
                    wf_num(xct) && wf_text(xdet) && (forall|t: int|
                        0 <= t < sts.len() ==> wf_station(#[trigger] sts[t])) && text@
                        == #[trigger] spec_station_list_json_raw(xct, xdet, sts) implies false by {}
            }
            return Err(ParseError::Malformed);
        },
    };
    let ghost ct: Seq<char> = gct@;
    let mut sts: Vec<Station> = Vec::new();
    let jarr: usize;
    if p3 < n && text.get_char(p3) == ']' {
        jarr = p3;
        proof {
            assert(sts.deep_view() =~= Seq::<StationV>::empty());
            assert(sts.deep_view().map_values(|v: StationV| spec_station_json(v)) =~= Seq::<
                Seq<char>,
            >::empty());
            assert(text@.subrange(p3 as int, jarr as int) =~= spec_stations_json(
                sts.deep_view(),
            ));
            assert forall|xct: Seq<char>, xdet: Seq<char>, xsts: Seq<StationV>|
                    wf_num(xct) && wf_text(xdet) && (forall|t: int|
                        0 <= t < xsts.len() ==> wf_station(#[trigger] xsts[t])) && text@
                        == #[trigger] spec_station_list_json_raw(xct, xdet, xsts) implies (sts.deep_view() == xsts && text@.subrange(
                jarr as int,
                text@.len() as int,
            ) == "]}"@ && jarr as int + "]}"@.len() == text@.len()) by {
                    lemma_station_list_layout(text@, xct, xdet, xsts);
                    let e1 = "{\"code\":"@.len() as int;
                    let e2 = e1 + xct.len();
                    let e3 = e2 + ",\"details\":\""@.len();
                    let e4 = e3 + xdet.len();
                    let e5 = e4 + "\",\"message\":["@.len();
                    let e6 = e5 + spec_stations_json(xsts).len();
                    let e7 = e6 + "]}"@.len();
                    assert(p3 as int == e5);
                    if xsts.len() >= 1 {
                        assert(text@[e5] == '{');
                        assert(false);
                    }
                    assert(sts.deep_view() =~= xsts);
                    assert(jarr as int == e6);
            }
        }
    } else {
        let (ri, gi) = parse_station_items(text, p3, &mut sts);
        proof {
            assert forall|xct: Seq<char>, xdet: Seq<char>, xsts: Seq<StationV>|
                    wf_num(xct) && wf_text(xdet) && (forall|t: int|
                        0 <= t < xsts.len() ==> wf_station(#[trigger] xsts[t])) && text@
                        == #[trigger] spec_station_list_json_raw(xct, xdet, xsts) implies (ri matches Some(jj) && gi@ == xsts && sts.deep_view()
                == xsts && text@.subrange(jj as int, text@.len() as int) == "]}"@ && jj as int
                + "]}"@.len() == text@.len()) by {
                    lemma_station_list_layout(text@, xct, xdet, xsts);
                    let e1 = "{\"code\":"@.len() as int;
                    let e2 = e1 + xct.len();
                    let e3 = e2 + ",\"details\":\""@.len();
                    let e4 = e3 + xdet.len();
                    let e5 = e4 + "\",\"message\":["@.len();
                    let e6 = e5 + spec_stations_json(xsts).len();
                    let e7 = e6 + "]}"@.len();
                    assert(p3 as int == e5);
                    if xsts.len() == 0 {
                        assert(text@[e5] == ']');
                        assert(false);
                    }
                    assert(text@.skip(p3 as int) =~= text@.subrange(p3 as int, text@.len() as int));
                    lemma_cat(text@, e5, e6, e7);
                    assert(text@.skip(p3 as int) == spec_stations_json(xsts) + text@.subrange(
                        e6,
                        e7,
                    ));
                    assert(text@.subrange(e6, e7).len() > 0);
                    assert(text@.subrange(e6, e7)[0] == text@[e6]);
                    assert(text@[e6] == ']');
                    assert(gi@ == xsts);
                    assert(sts.deep_view() =~= Seq::<StationV>::empty() + gi@);
                    assert(sts.deep_view() == xsts);
                    assert(text@.subrange(e6, e7) == "]}"@);
            }
        }
        jarr = match ri {
            Some(x) => x,
            None => {
                proof {
                    assert forall|xct: Seq<char>, xdet: Seq<char>, sts: Seq<StationV>|
                    wf_num(xct) && wf_text(xdet) && (forall|t: int|
                        0 <= t < sts.len() ==> wf_station(#[trigger] sts[t])) && text@
                        == #[trigger] spec_station_list_json_raw(xct, xdet, sts) implies false by {}
                }
                return Err(ParseError::Malformed);
            },
        };
        proof {
            assert(sts.deep_view() =~= gi@);
        }
    }
    let p4 = match expect_lit(text, jarr, "]}") {
        Some(x) => x,
        None => {
            proof {
                assert forall|xct: Seq<char>, xdet: Seq<char>, sts: Seq<StationV>|
                    wf_num(xct) && wf_text(xdet) && (forall|t: int|
                        0 <= t < sts.len() ==> wf_station(#[trigger] sts[t])) && text@
                        == #[trigger] spec_station_list_json_raw(xct, xdet, sts) implies false by {
                    assert(text@.subrange(jarr as int, jarr as int + "]}"@.len() as int)
                        == "]}"@);
                }
            }
            return Err(ParseError::Malformed);
        },
    };
    if p4 != n {
        proof {
            assert forall|xct: Seq<char>, xdet: Seq<char>, sts: Seq<StationV>|
                    wf_num(xct) && wf_text(xdet) && (forall|t: int|
                        0 <= t < sts.len() ==> wf_station(#[trigger] sts[t])) && text@
                        == #[trigger] spec_station_list_json_raw(xct, xdet, sts) implies false by {}
        }
        return Err(ParseError::Malformed);
    }
    proof {
        lemma_cat(text@, 0, p3 as int, jarr as int);
        lemma_cat(text@, 0, jarr as int, p4 as int);
        assert(text@.subrange(0, n as int) =~= text@);
        assert(text@ =~= "{\"code\":"@ + ct + ",\"details\":\""@ + details@
            + "\",\"message\":["@ + spec_stations_json(sts.deep_view()) + "]}"@);
        assert(text@ == spec_station_list_json_raw(ct, details@, sts.deep_view()));
        assert(wf_num(ct));
        assert(forall|t: int|
            0 <= t < sts.deep_view().len() ==> wf_station(#[trigger] sts.deep_view()[t]));
        assert(wf_text(details@));
        assert(is_station_list_image(text@, sts.deep_view()));
        assert forall|xct: Seq<char>, xdet: Seq<char>, xsts: Seq<StationV>|
                    wf_num(xct) && wf_text(xdet) && (forall|t: int|
                        0 <= t < xsts.len() ==> wf_station(#[trigger] xsts[t])) && text@
                        == #[trigger] spec_station_list_json_raw(xct, xdet, xsts) implies (sts.deep_view() == xsts) by {}
    }
    Ok(sts)
}

/// Where each piece of a canonical flow reading stands in `s` when one
/// begins at `i`.
proof fn lemma_reading_layout(s: Seq<char>, i: int, v: FlowReadingV, rest: Seq<char>)
    requires
        0 <= i <= s.len(),
        wf_reading(v),
        s.skip(i) == spec_reading_json(v) + rest,
    ensures
        ({
            let b1 = i + "{\"date\":\""@.len();
            let b2 = b1 + v.date.len();
            let b3 = b2 + "\",\"value\":\""@.len();
            let b4 = b3 + v.value.len();
            let b5 = b4 + "\"}"@.len();
            &&& b5 == i + spec_reading_json(v).len()
            &&& b5 <= s.len()
            &&& "\",\"value\":\""@.len() >= 1
            &&& "\"}"@.len() >= 1
            &&& s.subrange(i, b1) == "{\"date\":\""@
            &&& s.subrange(b1, b2) == v.date
            &&& (forall|k: int| b1 <= k < b2 ==> #[trigger] s[k] != '"')
            &&& s[b2] == '"'
            &&& s.subrange(b2, b3) == "\",\"value\":\""@
            &&& s.subrange(b3, b4) == v.value
            &&& (forall|k: int| b3 <= k < b4 ==> #[trigger] s[k] != '"')
            &&& s[b4] == '"'
            &&& s.subrange(b4, b5) == "\"}"@
            &&& s.subrange(b5, s.len() as int) == rest
        }),
{
    let m1 = "{\"date\":\""@;
    let m2 = "\",\"value\":\""@;
    let m3 = "\"}"@;
    reveal_strlit("{\"date\":\"");
    reveal_strlit("\",\"value\":\"");
    reveal_strlit("\"}");
    let r = spec_reading_json(v);
    let c2 = m1 + v.date;
    let c3 = c2 + m2;
    let c4 = c3 + v.value;
    assert(r == c4 + m3);
    assert(c4.len() == c3.len() + v.value.len());
    assert(c3.len() == c2.len() + m2.len());
    assert(c2.len() == m1.len() + v.date.len());
    assert(r.len() == c4.len() + m3.len());
    let b1 = i + m1.len();
    let b2 = b1 + v.date.len();
    let b3 = b2 + m2.len();
    let b4 = b3 + v.value.len();
    let b5 = b4 + m3.len();
    assert(b5 == i + r.len());
    assert(s.skip(i) =~= s.subrange(i, s.len() as int));
    assert((r + rest).len() == r.len() + rest.len());
    assert(s.len() - i == r.len() + rest.len());
    assert(s.subrange(i, s.len() as int) == r + rest);
    lemma_peel(s, i, b5, s.len() as int, r, rest);
    lemma_peel(s, i, b4, b5, c4, m3);
    lemma_peel(s, i, b3, b4, c3, v.value);
    lemma_peel(s, i, b2, b3, c2, m2);
    lemma_peel(s, i, b1, b2, m1, v.date);
    assert(s.subrange(b2, b3)[0] == s[b2]);
    assert(m2[0] == '"');
    assert(s.subrange(b4, b5)[0] == s[b4]);
    assert(m3[0] == '"');
    assert forall|k: int| b1 <= k < b2 implies #[trigger] s[k] != '"' by {
        assert(s.subrange(b1, b2)[k - b1] == s[k]);
        assert(v.date[k - b1] != '"');
    }
    assert forall|k: int| b3 <= k < b4 implies #[trigger] s[k] != '"' by {
        assert(s.subrange(b3, b4)[k - b3] == s[k]);
        assert(v.value[k - b3] != '"');
    }
}

/// One flow reading starting at `i`.  On success the consumed segment is
/// exactly the canonical text of the returned reading.
fn parse_reading_at(s: &str, i: usize) -> (r: Option<(FlowReading, usize)>)
    requires
        i <= s@.len(),
    ensures
        r matches Some(pair) ==> {
            &&& i <= pair.1 <= s@.len()
            &&& wf_reading(pair.0@)
            &&& s@.subrange(i as int, pair.1 as int) == spec_reading_json(pair.0@)
        },
        forall|v: FlowReadingV, rest: Seq<char>|
            wf_reading(v) && s@.skip(i as int) == #[trigger] (spec_reading_json(v) + rest) ==> (
            r matches Some(pair) && pair.0@ == v && pair.1 == i + spec_reading_json(v).len()),
{
    let p1 = match expect_lit(s, i, "{\"date\":\"") {
        Some(x) => x,
        None => {
            proof {
                assert forall|v: FlowReadingV, rest: Seq<char>|
                    wf_reading(v) && s@.skip(i as int) == #[trigger] (spec_reading_json(v)
                        + rest) implies false by {
                    lemma_reading_layout(s@, i as int, v, rest);
                }
            }
            return None;
        },
    };
    let (date, q1) = match parse_text_field(s, p1) {
        Some(x) => x,
        None => {
            proof {
                assert forall|v: FlowReadingV, rest: Seq<char>|
                    wf_reading(v) && s@.skip(i as int) == #[trigger] (spec_reading_json(v)
                        + rest) implies false by {
                    lemma_reading_layout(s@, i as int, v, rest);
                    let b2 = i + "{\"date\":\""@.len() + v.date.len();
                    assert(s@[b2] == '"');
                }
            }
            return None;
        },
    };
    let p2 = match expect_lit(s, q1, "\",\"value\":\"") {
        Some(x) => x,
        None => {
            proof {
                assert forall|v: FlowReadingV, rest: Seq<char>|
                    wf_reading(v) && s@.skip(i as int) == #[trigger] (spec_reading_json(v)
                        + rest) implies false by {
                    lemma_reading_layout(s@, i as int, v, rest);
                    let b2 = i + "{\"date\":\""@.len() + v.date.len();
                    if q1 < b2 {
                        assert(s@[q1 as int] != '"');
                    }
                    if q1 > b2 {
                        assert(s@[b2] != '"');
                    }
                    assert(q1 == b2);
                }
            }
            return None;
        },
    };
    let (value, q2) = match parse_text_field(s, p2) {
        Some(x) => x,
        None => {
            proof {
                assert forall|v: FlowReadingV, rest: Seq<char>|
                    wf_reading(v) && s@.skip(i as int) == #[trigger] (spec_reading_json(v)
                        + rest) implies false by {
                    lemma_reading_layout(s@, i as int, v, rest);
                    let b2 = i + "{\"date\":\""@.len() + v.date.len();
                    if q1 < b2 {
                        assert(s@[q1 as int] != '"');
                    }
                    if q1 > b2 {
                        assert(s@[b2] != '"');
                    }
                    assert(q1 == b2);
                    let b4 = b2 + "\",\"value\":\""@.len() + v.value.len();
                    assert(s@[b4] == '"');
                }
            }
            return None;
        },
    };
    let p3 = match expect_lit(s, q2, "\"}") {
        Some(x) => x,
        None => {
            proof {
                assert forall|v: FlowReadingV, rest: Seq<char>|
                    wf_reading(v) && s@.skip(i as int) == #[trigger] (spec_reading_json(v)
                        + rest) implies false by {
                    lemma_reading_layout(s@, i as int, v, rest);
                    let b2 = i + "{\"date\":\""@.len() + v.date.len();
                    if q1 < b2 {
                        assert(s@[q1 as int] != '"');
                    }
                    if q1 > b2 {
                        assert(s@[b2] != '"');
                    }
                    assert(q1 == b2);
                    let b4 = b2 + "\",\"value\":\""@.len() + v.value.len();
                    if q2 < b4 {
                        assert(s@[q2 as int] != '"');
                    }
                    if q2 > b4 {
                        assert(s@[b4] != '"');
                    }
                    assert(q2 == b4);
                }
            }
            return None;
        },
    };
    let fr = FlowReading { date, value };
    proof {
        lemma_cat(s@, i as int, p1 as int, q1 as int);
        lemma_cat(s@, i as int, q1 as int, p2 as int);
        lemma_cat(s@, i as int, p2 as int, q2 as int);
        lemma_cat(s@, i as int, q2 as int, p3 as int);
        assert(s@.subrange(i as int, p3 as int) == spec_reading_json(fr@));
        assert forall|v: FlowReadingV, rest: Seq<char>|
            wf_reading(v) && s@.skip(i as int) == #[trigger] (spec_reading_json(v)
                + rest) implies fr@ == v && p3 == i + spec_reading_json(v).len() by {
            lemma_reading_layout(s@, i as int, v, rest);
            let b2 = i + "{\"date\":\""@.len() + v.date.len();
            if q1 < b2 {
                assert(s@[q1 as int] != '"');
            }
            if q1 > b2 {
                assert(s@[b2] != '"');
            }
            assert(q1 == b2);
            let b4 = b2 + "\",\"value\":\""@.len() + v.value.len();
            if q2 < b4 {
                assert(s@[q2 as int] != '"');
            }
            if q2 > b4 {
                assert(s@[b4] != '"');
            }
            assert(q2 == b4);
            assert(date@ == v.date);
            assert(value@ == v.value);
            assert(fr@ == v);
            assert(p3 == i + spec_reading_json(v).len());
        }
    }
    Some((fr, p3))
}

/// One or more comma-separated flow readings starting at `i`, pushed onto
/// `acc` in order; on success the consumed segment is exactly the joined
/// canonical texts.
/// The first reading of a joined run, and what follows it.
proof fn lemma_readings_head(s: Seq<char>, i: int, items2: Seq<FlowReadingV>, rest: Seq<char>)
    requires
        0 <= i <= s.len(),
        items2.len() >= 1,
        forall|t: int| 0 <= t < items2.len() ==> wf_reading(#[trigger] items2[t]),
        s.skip(i) == spec_readings_json(items2) + rest,
    ensures
        wf_reading(items2[0]),
        items2.len() == 1 ==> spec_readings_json(items2) == spec_reading_json(items2[0])
            && s.skip(i) == spec_reading_json(items2[0]) + rest,
        items2.len() > 1 ==> spec_readings_json(items2).len() == spec_reading_json(items2[0]).len()
            + 1 + spec_readings_json(items2.drop_first()).len() && s.skip(i) == spec_reading_json(
            items2[0],
        ) + (seq![','] + (spec_readings_json(items2.drop_first()) + rest)),
{
    let texts = items2.map_values(|v: FlowReadingV| spec_reading_json(v));
    assert(texts[0] == spec_reading_json(items2[0]));
    if items2.len() == 1 {
        assert(join_comma(texts) == texts[0]);
    } else {
        let join2 = spec_readings_json(items2.drop_first());
        assert(texts.drop_first() =~= items2.drop_first().map_values(
            |v: FlowReadingV| spec_reading_json(v),
        ));
        assert(join_comma(texts) == texts[0] + seq![','] + join_comma(texts.drop_first()));
        let lhs = (texts[0] + seq![','] + join2) + rest;
        let rhs = texts[0] + (seq![','] + (join2 + rest));
        assert(lhs =~= rhs);
        assert(s.skip(i) == rhs);
    }
}

fn parse_reading_items(s: &str, i: usize, acc: &mut Vec<FlowReading>) -> (r: (
    Option<usize>,
    Ghost<Seq<FlowReadingV>>,
))
    requires
        i <= s@.len(),
    ensures
        r.0 matches Some(j) ==> {
            let items = r.1@;
            &&& i <= j <= s@.len()
            &&& final(acc).deep_view() == old(acc).deep_view() + items
            &&& items.len() >= 1
            &&& forall|t: int| 0 <= t < items.len() ==> wf_reading(#[trigger] items[t])
            &&& s@.subrange(i as int, j as int) == spec_readings_json(items)
        },
        forall|items2: Seq<FlowReadingV>, rest: Seq<char>|
            items2.len() >= 1 && (forall|t: int|
                0 <= t < items2.len() ==> wf_reading(#[trigger] items2[t])) && s@.skip(i as int)
                == #[trigger] (spec_readings_json(items2) + rest) && rest.len() > 0 && rest[0]
                == ']' ==> (r.0 matches Some(j) && r.1@ == items2 && j == i + spec_readings_json(
                items2,
            ).len()),
    decreases s@.len() - i,
{
    let n = s.unicode_len();
    let (fr, j) = match parse_reading_at(s, i) {
        Some(x) => x,
        None => {
            proof {
                assert forall|items2: Seq<FlowReadingV>, rest: Seq<char>|
                    items2.len() >= 1 && (forall|t: int|
                        0 <= t < items2.len() ==> wf_reading(#[trigger] items2[t])) && s@.skip(
                        i as int,
                    ) == #[trigger] (spec_readings_json(items2) + rest) && rest.len() > 0
                        && rest[0] == ']' implies false by {
                    lemma_readings_head(s@, i as int, items2, rest);
                }
            }
            return (None, Ghost(Seq::empty()));
        },
    };
    let ghost frv: FlowReadingV = fr@;
    let ghost before: Seq<FlowReadingV> = acc.deep_view();
    acc.push(fr);
    proof {
        assert(acc.deep_view() =~= before + seq![frv]);
    }
    if j < n && s.get_char(j) == ',' {
        let (r2, g2) = parse_reading_items(s, j + 1, acc);
        proof {
            assert forall|items2: Seq<FlowReadingV>, rest: Seq<char>|
                items2.len() >= 1 && (forall|t: int|
                    0 <= t < items2.len() ==> wf_reading(#[trigger] items2[t])) && s@.skip(
                    i as int,
                ) == #[trigger] (spec_readings_json(items2) + rest) && rest.len() > 0 && rest[0]
                    == ']' implies (r2 matches Some(jj) && g2@ == items2.drop_first() && frv
                    == items2[0] && jj == j + 1 + spec_readings_json(items2.drop_first()).len()
                    && spec_readings_json(items2).len() == spec_reading_json(items2[0]).len() + 1
                    + spec_readings_json(items2.drop_first()).len()) by {
                lemma_readings_head(s@, i as int, items2, rest);
                if items2.len() == 1 {
                    assert(j == i + spec_reading_json(items2[0]).len());
                    assert(s@.skip(i as int) =~= s@.subrange(i as int, s@.len() as int));
                    assert(s@.subrange(i as int, s@.len() as int) == spec_reading_json(items2[0])
                        + rest);
                    lemma_peel(
                        s@,
                        i as int,
                        j as int,
                        s@.len() as int,
                        spec_reading_json(items2[0]),
                        rest,
                    );
                    assert(s@.subrange(j as int, s@.len() as int)[0] == s@[j as int]);
                    assert(s@[j as int] == ']');
                    assert(false);
                } else {
                    let join2 = spec_readings_json(items2.drop_first());
                    let rest2 = seq![','] + (join2 + rest);
                    assert(j == i + spec_reading_json(items2[0]).len());
                    assert(s@.skip(i as int) =~= s@.subrange(i as int, s@.len() as int));
                    assert(s@.subrange(i as int, s@.len() as int) == spec_reading_json(items2[0])
                        + rest2);
                    lemma_peel(
                        s@,
                        i as int,
                        j as int,
                        s@.len() as int,
                        spec_reading_json(items2[0]),
                        rest2,
                    );
                    lemma_peel(
                        s@,
                        j as int,
                        j as int + 1,
                        s@.len() as int,
                        seq![','],
                        join2 + rest,
                    );
                    assert(s@.skip(j as int + 1) =~= s@.subrange(j as int + 1, s@.len() as int));
                    assert(s@.skip(j as int + 1) == join2 + rest);
                    assert(items2.drop_first().len() >= 1);
                    assert forall|t: int| 0 <= t < items2.drop_first().len() implies wf_reading(
                        #[trigger] items2.drop_first()[t],
                    ) by {
                        assert(items2.drop_first()[t] == items2[t + 1]);
                    }
                    assert(s@.skip(j as int + 1) == spec_readings_json(items2.drop_first())
                        + rest);
                }
            }
        }
        match r2 {
            None => {
                proof {
                    assert forall|items2: Seq<FlowReadingV>, rest: Seq<char>|
                        items2.len() >= 1 && (forall|t: int|
                            0 <= t < items2.len() ==> wf_reading(#[trigger] items2[t]))
                            && s@.skip(i as int) == #[trigger] (spec_readings_json(items2)
                            + rest) && rest.len() > 0 && rest[0] == ']' implies false by {}
                }
                (None, Ghost(Seq::empty()))
            },
            Some(j2) => {
                let ghost items: Seq<FlowReadingV> = seq![frv] + g2@;
                proof {
                    assert(acc.deep_view() =~= before + items);
                    assert(items[0] == frv);
                    assert(items.drop_first() =~= g2@);
                    let texts = items.map_values(|v: FlowReadingV| spec_reading_json(v));
                    assert(texts[0] == spec_reading_json(frv));
                    assert(texts.drop_first() =~= g2@.map_values(
                        |v: FlowReadingV| spec_reading_json(v),
                    ));
                    assert(s@.subrange(j as int, j as int + 1) =~= seq![',']);
                    lemma_cat(s@, i as int, j as int, j as int + 1);
                    lemma_cat(s@, i as int, j as int + 1, j2 as int);
                    assert(texts.len() >= 2);
                    assert(join_comma(texts) == texts[0] + seq![','] + join_comma(
                        texts.drop_first(),
                    ));
                    assert(s@.subrange(i as int, j2 as int) == spec_readings_json(items));
                    assert forall|t: int| 0 <= t < items.len() implies wf_reading(
                        #[trigger] items[t],
                    ) by {
                        if t > 0 {
                            assert(items[t] == g2@[t - 1]);
                        }
                    }
                    assert forall|items2: Seq<FlowReadingV>, rest: Seq<char>|
                        items2.len() >= 1 && (forall|t: int|
                            0 <= t < items2.len() ==> wf_reading(#[trigger] items2[t]))
                            && s@.skip(i as int) == #[trigger] (spec_readings_json(items2)
                            + rest) && rest.len() > 0 && rest[0] == ']' implies (items == items2
                        && j2 == i + spec_readings_json(items2).len()) by {
                        assert(g2@ == items2.drop_first());
                        assert(frv == items2[0]);
                        assert(items =~= items2);
                        assert(j2 == i + spec_readings_json(items2).len());
                    }
                }
                (Some(j2), Ghost(items))
            },
        }
    } else {
        let ghost items: Seq<FlowReadingV> = seq![frv];
        proof {
            assert(acc.deep_view() =~= before + items);
            let texts = items.map_values(|v: FlowReadingV| spec_reading_json(v));
            assert(texts.len() == 1);
            assert(join_comma(texts) == texts[0]);
            assert(texts[0] == spec_reading_json(frv));
            assert forall|items2: Seq<FlowReadingV>, rest: Seq<char>|
                items2.len() >= 1 && (forall|t: int|
                    0 <= t < items2.len() ==> wf_reading(#[trigger] items2[t])) && s@.skip(
                    i as int,
                ) == #[trigger] (spec_readings_json(items2) + rest) && rest.len() > 0 && rest[0]
                    == ']' implies (items == items2 && j == i + spec_readings_json(
                    items2,
                ).len()) by {
                lemma_readings_head(s@, i as int, items2, rest);
                if items2.len() > 1 {
                    let join2 = spec_readings_json(items2.drop_first());
                    let rest2 = seq![','] + (join2 + rest);
                    assert(j == i + spec_reading_json(items2[0]).len());
                    assert(s@.skip(i as int) =~= s@.subrange(i as int, s@.len() as int));
                    assert(s@.subrange(i as int, s@.len() as int) == spec_reading_json(items2[0])
                        + rest2);
                    lemma_peel(
                        s@,
                        i as int,
                        j as int,
                        s@.len() as int,
                        spec_reading_json(items2[0]),
                        rest2,
                    );
                    assert(s@.subrange(j as int, s@.len() as int)[0] == s@[j as int]);
                    assert(rest2[0] == ',');
                    assert(s@[j as int] == ',');
                    assert(j < n);
                    assert(false);
                }
                assert(frv == items2[0]);
                assert(items =~= items2);
                assert(j == i + spec_readings_json(items2).len());
            }
        }
        (Some(j), Ghost(items))
    }
}

/// Where each piece of a canonical flow-history envelope stands in `s`.
proof fn lemma_flow_layout(
    s: Seq<char>,
    ct: Seq<char>,
    det: Seq<char>,
    sd: Seq<char>,
    ed: Seq<char>,
    un: Seq<char>,
    h: Seq<FlowReadingV>,
)
    requires
        wf_num(ct),
        wf_text(det),
        wf_text(sd),
        wf_text(ed),
        wf_text(un),
        forall|t: int| 0 <= t < h.len() ==> wf_reading(#[trigger] h[t]),
        s == spec_flow_history_json_raw(ct, det, sd, ed, un, h),
    ensures
        ({
            let b1 = "{\"code\":"@.len() as int;
            let b2 = b1 + ct.len();
            let b3 = b2 + ",\"details\":\""@.len();
            let b4 = b3 + det.len();
            let b5 = b4 + "\",\"message\":{\"startDate\":\""@.len();
            let b6 = b5 + sd.len();
            let b7 = b6 + "\",\"endDate\":\""@.len();
            let b8 = b7 + ed.len();
            let b9 = b8 + "\",\"unit\":\""@.len();
            let b10 = b9 + un.len();
            let b11 = b10 + "\",\"history\":["@.len();
            let b12 = b11 + spec_readings_json(h).len();
            let b13 = b12 + "]}}"@.len();
            &&& b13 == s.len()
            &&& b2 < b3 && b4 < b5 && b6 < b7 && b8 < b9 && b10 < b11 && b12 < b13
            &&& s.subrange(0, b1) == "{\"code\":"@
            &&& s.subrange(b1, b2) == ct
            &&& (forall|k: int| b1 <= k < b2 ==> is_num_char(#[trigger] s[k]))
            &&& s[b2] == ','
            &&& s.subrange(b2, b3) == ",\"details\":\""@
            &&& s.subrange(b3, b4) == det
            &&& (forall|k: int| b3 <= k < b4 ==> #[trigger] s[k] != '"')
            &&& s[b4] == '"'
            &&& s.subrange(b4, b5) == "\",\"message\":{\"startDate\":\""@
            &&& s.subrange(b5, b6) == sd
            &&& (forall|k: int| b5 <= k < b6 ==> #[trigger] s[k] != '"')
            &&& s[b6] == '"'
            &&& s.subrange(b6, b7) == "\",\"endDate\":\""@
            &&& s.subrange(b7, b8) == ed
            &&& (forall|k: int| b7 <= k < b8 ==> #[trigger] s[k] != '"')
            &&& s[b8] == '"'
            &&& s.subrange(b8, b9) == "\",\"unit\":\""@
            &&& s.subrange(b9, b10) == un
            &&& (forall|k: int| b9 <= k < b10 ==> #[trigger] s[k] != '"')
            &&& s[b10] == '"'
            &&& s.subrange(b10, b11) == "\",\"history\":["@
            &&& s.subrange(b11, b12) == spec_readings_json(h)
            &&& s.subrange(b12, b13) == "]}}"@
            &&& s[b12] == ']'
            &&& (h.len() == 0 ==> b11 == b12 && s[b11] == ']')
            &&& (h.len() >= 1 ==> s[b11] == '{')
        }),
{
    let t1 = "{\"code\":"@;
    let t2 = ",\"details\":\""@;
    let f3 = "\",\"message\":{\"startDate\":\""@;
    let f4 = "\",\"endDate\":\""@;
    let f5 = "\",\"unit\":\""@;
    let f6 = "\",\"history\":["@;
    let f7 = "]}}"@;
    reveal_strlit("{\"code\":");
    reveal_strlit(",\"details\":\"");
    reveal_strlit("\",\"message\":{\"startDate\":\"");
    reveal_strlit("\",\"endDate\":\"");
    reveal_strlit("\",\"unit\":\"");
    reveal_strlit("\",\"history\":[");
    reveal_strlit("]}}");
    let rj = spec_readings_json(h);
    let c1 = t1 + ct;
    let c2 = c1 + t2;
    let c3 = c2 + det;
    let c4 = c3 + f3;
    let c5 = c4 + sd;
    let c6 = c5 + f4;
    let c7 = c6 + ed;
    let c8 = c7 + f5;
    let c9 = c8 + un;
    let c10 = c9 + f6;
    let c11 = c10 + rj;
    assert(s == c11 + f7);
    assert(c1.len() == t1.len() + ct.len());
    assert(c2.len() == c1.len() + t2.len());
    assert(c3.len() == c2.len() + det.len());
    assert(c4.len() == c3.len() + f3.len());
    assert(c5.len() == c4.len() + sd.len());
    assert(c6.len() == c5.len() + f4.len());
    assert(c7.len() == c6.len() + ed.len());
    assert(c8.len() == c7.len() + f5.len());
    assert(c9.len() == c8.len() + un.len());
    assert(c10.len() == c9.len() + f6.len());
    assert(c11.len() == c10.len() + rj.len());
    assert(s.len() == c11.len() + f7.len());
    let b1 = t1.len() as int;
    let b2 = b1 + ct.len();
    let b3 = b2 + t2.len();
    let b4 = b3 + det.len();
    let b5 = b4 + f3.len();
    let b6 = b5 + sd.len();
    let b7 = b6 + f4.len();
    let b8 = b7 + ed.len();
    let b9 = b8 + f5.len();
    let b10 = b9 + un.len();
    let b11 = b10 + f6.len();
    let b12 = b11 + rj.len();
    let b13 = b12 + f7.len();
    assert(s.subrange(0, s.len() as int) =~= s);
    lemma_peel(s, 0, b12, b13, c11, f7);
    lemma_peel(s, 0, b11, b12, c10, rj);
    lemma_peel(s, 0, b10, b11, c9, f6);
    lemma_peel(s, 0, b9, b10, c8, un);
    lemma_peel(s, 0, b8, b9, c7, f5);
    lemma_peel(s, 0, b7, b8, c6, ed);
    lemma_peel(s, 0, b6, b7, c5, f4);
    lemma_peel(s, 0, b5, b6, c4, sd);
    lemma_peel(s, 0, b4, b5, c3, f3);
    lemma_peel(s, 0, b3, b4, c2, det);
    lemma_peel(s, 0, b2, b3, c1, t2);
    lemma_peel(s, 0, b1, b2, t1, ct);
    assert(s.subrange(b2, b3)[0] == s[b2]);
    assert(t2[0] == ',');
    assert(s.subrange(b4, b5)[0] == s[b4]);
    assert(f3[0] == '"');
    assert(s.subrange(b6, b7)[0] == s[b6]);
    assert(f4[0] == '"');
    assert(s.subrange(b8, b9)[0] == s[b8]);
    assert(f5[0] == '"');
    assert(s.subrange(b10, b11)[0] == s[b10]);
    assert(f6[0] == '"');
    assert forall|k: int| b1 <= k < b2 implies is_num_char(#[trigger] s[k]) by {
        assert(s.subrange(b1, b2)[k - b1] == s[k]);
        assert(is_num_char(ct[k - b1]));
    }
    assert forall|k: int| b3 <= k < b4 implies #[trigger] s[k] != '"' by {
        assert(s.subrange(b3, b4)[k - b3] == s[k]);
        assert(det[k - b3] != '"');
    }
    assert forall|k: int| b5 <= k < b6 implies #[trigger] s[k] != '"' by {
        assert(s.subrange(b5, b6)[k - b5] == s[k]);
        assert(sd[k - b5] != '"');
    }
    assert forall|k: int| b7 <= k < b8 implies #[trigger] s[k] != '"' by {
        assert(s.subrange(b7, b8)[k - b7] == s[k]);
        assert(ed[k - b7] != '"');
    }
    assert forall|k: int| b9 <= k < b10 implies #[trigger] s[k] != '"' by {
        assert(s.subrange(b9, b10)[k - b9] == s[k]);
        assert(un[k - b9] != '"');
    }
    assert(s.subrange(b12, b13)[0] == s[b12]);
    assert(f7[0] == ']');
    if h.len() == 0 {
        assert(h.map_values(|v: FlowReadingV| spec_reading_json(v)).len() == 0);
        assert(rj.len() == 0);
    } else {
        let texts = h.map_values(|v: FlowReadingV| spec_reading_json(v));
        assert(texts[0] == spec_reading_json(h[0]));
        reveal_strlit("{\"date\":\"");
        let m1 = "{\"date\":\""@;
        let r0 = spec_reading_json(h[0]);
        assert(r0 == ((m1 + h[0].date + "\",\"value\":\""@ + h[0].value) + "\"}"@));
        assert(r0[0] == m1[0]);
        assert(m1[0] == '{');
        if texts.len() == 1 {
            assert(rj == texts[0]);
        } else {
            assert(rj == texts[0] + seq![','] + join_comma(texts.drop_first()));
            assert(rj[0] == texts[0][0]);
        }
        assert(rj[0] == '{');
        assert(rj.len() >= 1);
        assert(s.subrange(b11, b12)[0] == s[b11]);
    }
}

/// The head pieces of [`lemma_flow_layout`], restated small for the
/// head parser's proofs.
proof fn lemma_flow_head_layout(
    s: Seq<char>,
    xct: Seq<char>,
    xdet: Seq<char>,
    xsd: Seq<char>,
    xed: Seq<char>,
    xun: Seq<char>,
    h: Seq<FlowReadingV>,
)
    requires
        wf_num(xct),
        wf_text(xdet),
        wf_text(xsd),
        wf_text(xed),
        wf_text(xun),
        forall|t: int| 0 <= t < h.len() ==> wf_reading(#[trigger] h[t]),
        s == spec_flow_history_json_raw(xct, xdet, xsd, xed, xun, h),
    ensures
        ({
            let b1 = "{\"code\":"@.len() as int;
            let b2 = b1 + xct.len();
            let b3 = b2 + ",\"details\":\""@.len();
            let b4 = b3 + xdet.len();
            let b5 = b4 + "\",\"message\":{\"startDate\":\""@.len();
            &&& b5 <= s.len()
            &&& b2 < b3 && b4 < b5
            &&& s.subrange(0, b1) == "{\"code\":"@
            &&& s.subrange(b1, b2) == xct
            &&& (forall|k: int| b1 <= k < b2 ==> is_num_char(#[trigger] s[k]))
            &&& s[b2] == ','
            &&& s.subrange(b2, b3) == ",\"details\":\""@
            &&& s.subrange(b3, b4) == xdet
            &&& (forall|k: int| b3 <= k < b4 ==> #[trigger] s[k] != '"')
            &&& s[b4] == '"'
            &&& s.subrange(b4, b5) == "\",\"message\":{\"startDate\":\""@
        }),
{
    lemma_flow_layout(s, xct, xdet, xsd, xed, xun, h);
}

/// The opening of a canonical flow-history envelope: the code token and
/// the details field, read up to the start-date field.  Two-sided, as
/// [`parse_flow_history`] is.
#[verifier::rlimit(100)]
fn parse_flow_head1(text: &str) -> (r: (Option<(String, usize)>, Ghost<Seq<char>>))
    ensures
        r.0 matches Some(two) ==> {
            &&& two.1 <= text@.len()
            &&& wf_num(r.1@)
            &&& wf_text(two.0@)
            &&& text@.subrange(0, two.1 as int) == "{\"code\":"@ + r.1@ + ",\"details\":\""@
                + two.0@ + "\",\"message\":{\"startDate\":\""@
        },
        forall|xct: Seq<char>, xdet: Seq<char>, xsd: Seq<char>, xed: Seq<char>, xun: Seq<char>, h: Seq<FlowReadingV>|
                    wf_num(xct) && wf_text(xdet) && wf_text(xsd) && wf_text(xed) && wf_text(xun)
                        && (forall|t: int| 0 <= t < h.len() ==> wf_reading(#[trigger] h[t]))
                        && text@ == #[trigger] spec_flow_history_json_raw(
                        xct,
                        xdet,
                        xsd,
                        xed,
                        xun,
                        h,
                    ) ==> (r.0 matches Some(two) && r.1@ == xct && two.0@ == xdet && two.1 as int
            == "{\"code\":"@.len() + xct.len() + ",\"details\":\""@.len() + xdet.len()
                + "\",\"message\":{\"startDate\":\""@.len()),
{
    let n = text.unicode_len();
    let p1 = match expect_lit(text, 0, "{\"code\":") {
        Some(x) => x,
        None => {
            proof {
                assert forall|xct: Seq<char>, xdet: Seq<char>, xsd: Seq<char>, xed: Seq<char>, xun: Seq<char>, h: Seq<FlowReadingV>|
                    wf_num(xct) && wf_text(xdet) && wf_text(xsd) && wf_text(xed) && wf_text(xun)
                        && (forall|t: int| 0 <= t < h.len() ==> wf_reading(#[trigger] h[t]))
                        && text@ == #[trigger] spec_flow_history_json_raw(
                        xct,
                        xdet,
                        xsd,
                        xed,
                        xun,
                        h,
                    ) implies false by {
                    lemma_flow_head_layout(text@, xct, xdet, xsd, xed, xun, h);
                    let b1 = "{\"code\":"@.len() as int;
                    let b2 = b1 + xct.len();
                    let b3 = b2 + ",\"details\":\""@.len();
                    let b4 = b3 + xdet.len();
                    let b5 = b4 + "\",\"message\":{\"startDate\":\""@.len();
                }
            }
            return (None, Ghost(Seq::empty()));
        },
    };
    let jc = scan_num_end(text, p1);
    if jc == p1 {
            proof {
                assert forall|xct: Seq<char>, xdet: Seq<char>, xsd: Seq<char>, xed: Seq<char>, xun: Seq<char>, h: Seq<FlowReadingV>|
                    wf_num(xct) && wf_text(xdet) && wf_text(xsd) && wf_text(xed) && wf_text(xun)
                        && (forall|t: int| 0 <= t < h.len() ==> wf_reading(#[trigger] h[t]))
                        && text@ == #[trigger] spec_flow_history_json_raw(
                        xct,
                        xdet,
                        xsd,
                        xed,
                        xun,
                        h,
                    ) implies false by {
                    lemma_flow_head_layout(text@, xct, xdet, xsd, xed, xun, h);
                    let b1 = "{\"code\":"@.len() as int;
                    let b2 = b1 + xct.len();
                    let b3 = b2 + ",\"details\":\""@.len();
                    let b4 = b3 + xdet.len();
                    let b5 = b4 + "\",\"message\":{\"startDate\":\""@.len();
                    assert(p1 as int == b1);
                    if (jc as int) < b2 {
                        assert(jc < text@.len());
                        assert(is_num_char(text@[jc as int]));
                        assert(!is_num_char(text@[jc as int]));
                        assert(false);
                    }
                    if (jc as int) > b2 {
                        assert(is_num_char(text@[b2]));
                        assert(false);
                    }
                    assert(jc as int == b2);
                }
            }
            return (None, Ghost(Seq::empty()));
    }
    let ghost ct: Seq<char> = text@.subrange(p1 as int, jc as int);
    proof {
        assert forall|t: int| 0 <= t < ct.len() implies is_num_char(#[trigger] ct[t]) by {
            assert(ct[t] == text@[p1 + t]);
        }
    }
    let p2 = match expect_lit(text, jc, ",\"details\":\"") {
        Some(x) => x,
        None => {
            proof {
                assert forall|xct: Seq<char>, xdet: Seq<char>, xsd: Seq<char>, xed: Seq<char>, xun: Seq<char>, h: Seq<FlowReadingV>|
                    wf_num(xct) && wf_text(xdet) && wf_text(xsd) && wf_text(xed) && wf_text(xun)
                        && (forall|t: int| 0 <= t < h.len() ==> wf_reading(#[trigger] h[t]))
                        && text@ == #[trigger] spec_flow_history_json_raw(
                        xct,
                        xdet,
                        xsd,
                        xed,
                        xun,
                        h,
                    ) implies false by {
                    lemma_flow_head_layout(text@, xct, xdet, xsd, xed, xun, h);
                    let b1 = "{\"code\":"@.len() as int;
                    let b2 = b1 + xct.len();
                    let b3 = b2 + ",\"details\":\""@.len();
                    let b4 = b3 + xdet.len();
                    let b5 = b4 + "\",\"message\":{\"startDate\":\""@.len();
                    assert(p1 as int == b1);
                    if (jc as int) < b2 {
                        assert(jc < text@.len());
                        assert(is_num_char(text@[jc as int]));
                        assert(!is_num_char(text@[jc as int]));
                        assert(false);
                    }
                    if (jc as int) > b2 {
                        assert(is_num_char(text@[b2]));
                        assert(false);
                    }
                    assert(jc as int == b2);
                }
            }
            return (None, Ghost(Seq::empty()));
        },
    };
    let (details, q2) = match parse_text_field(text, p2) {
        Some(x) => x,
        None => {
            proof {
                assert forall|xct: Seq<char>, xdet: Seq<char>, xsd: Seq<char>, xed: Seq<char>, xun: Seq<char>, h: Seq<FlowReadingV>|
                    wf_num(xct) && wf_text(xdet) && wf_text(xsd) && wf_text(xed) && wf_text(xun)
                        && (forall|t: int| 0 <= t < h.len() ==> wf_reading(#[trigger] h[t]))
                        && text@ == #[trigger] spec_flow_history_json_raw(
                        xct,
                        xdet,
                        xsd,
                        xed,
                        xun,
                        h,
                    ) implies false by {
                    lemma_flow_head_layout(text@, xct, xdet, xsd, xed, xun, h);
                    let b1 = "{\"code\":"@.len() as int;
                    let b2 = b1 + xct.len();
                    let b3 = b2 + ",\"details\":\""@.len();
                    let b4 = b3 + xdet.len();
                    let b5 = b4 + "\",\"message\":{\"startDate\":\""@.len();
                    assert(p1 as int == b1);
                    if (jc as int) < b2 {
                        assert(jc < text@.len());
                        assert(is_num_char(text@[jc as int]));
                        assert(!is_num_char(text@[jc as int]));
                        assert(false);
                    }
                    if (jc as int) > b2 {
                        assert(is_num_char(text@[b2]));
                        assert(false);
                    }
                    assert(jc as int == b2);
                    assert(p2 as int == b3);
                }
            }
            return (None, Ghost(Seq::empty()));
        },
    };
    let p3 = match expect_lit(text, q2, "\",\"message\":{\"startDate\":\"") {
        Some(x) => x,
        None => {
            proof {
                assert forall|xct: Seq<char>, xdet: Seq<char>, xsd: Seq<char>, xed: Seq<char>, xun: Seq<char>, h: Seq<FlowReadingV>|
                    wf_num(xct) && wf_text(xdet) && wf_text(xsd) && wf_text(xed) && wf_text(xun)
                        && (forall|t: int| 0 <= t < h.len() ==> wf_reading(#[trigger] h[t]))
                        && text@ == #[trigger] spec_flow_history_json_raw(
                        xct,
                        xdet,
                        xsd,
                        xed,
                        xun,
                        h,
                    ) implies false by {
                    lemma_flow_head_layout(text@, xct, xdet, xsd, xed, xun, h);
                    let b1 = "{\"code\":"@.len() as int;
                    let b2 = b1 + xct.len();
                    let b3 = b2 + ",\"details\":\""@.len();
                    let b4 = b3 + xdet.len();
                    let b5 = b4 + "\",\"message\":{\"startDate\":\""@.len();
                    assert(p1 as int == b1);
                    if (jc as int) < b2 {
                        assert(jc < text@.len());
                        assert(is_num_char(text@[jc as int]));
                        assert(!is_num_char(text@[jc as int]));
                        assert(false);
                    }
                    if (jc as int) > b2 {
                        assert(is_num_char(text@[b2]));
                        assert(false);
                    }
                    assert(jc as int == b2);
                    assert(p2 as int == b3);
                    if (q2 as int) < b4 {
                        assert(text@[q2 as int] != '"');
                        assert(false);
                    }
                    if (q2 as int) > b4 {
                        assert(text@[b4] != '"');
                        assert(false);
                    }
                    assert(q2 as int == b4);
                }
            }
            return (None, Ghost(Seq::empty()));
        },
    };
    proof {
        lemma_cat(text@, 0, p1 as int, jc as int);
        lemma_cat(text@, 0, jc as int, p2 as int);
        lemma_cat(text@, 0, p2 as int, q2 as int);
        lemma_cat(text@, 0, q2 as int, p3 as int);
        assert(text@.subrange(0, p3 as int) == "{\"code\":"@ + ct + ",\"details\":\""@
            + details@ + "\",\"message\":{\"startDate\":\""@);
        assert(wf_num(ct));
        assert forall|xct: Seq<char>, xdet: Seq<char>, xsd: Seq<char>, xed: Seq<char>, xun: Seq<char>, h: Seq<FlowReadingV>|
                    wf_num(xct) && wf_text(xdet) && wf_text(xsd) && wf_text(xed) && wf_text(xun)
                        && (forall|t: int| 0 <= t < h.len() ==> wf_reading(#[trigger] h[t]))
                        && text@ == #[trigger] spec_flow_history_json_raw(
                        xct,
                        xdet,
                        xsd,
                        xed,
                        xun,
                        h,
                    ) implies (ct == xct && details@ == xdet && p3 as int == "{\"code\":"@.len() + xct.len() + ",\"details\":\""@.len() + xdet.len()
                + "\",\"message\":{\"startDate\":\""@.len()) by {
                    lemma_flow_head_layout(text@, xct, xdet, xsd, xed, xun, h);
                    let b1 = "{\"code\":"@.len() as int;
                    let b2 = b1 + xct.len();
                    let b3 = b2 + ",\"details\":\""@.len();
                    let b4 = b3 + xdet.len();
                    let b5 = b4 + "\",\"message\":{\"startDate\":\""@.len();
                    assert(p1 as int == b1);
                    if (jc as int) < b2 {
                        assert(jc < text@.len());
                        assert(is_num_char(text@[jc as int]));
                        assert(!is_num_char(text@[jc as int]));
                        assert(false);
                    }
                    if (jc as int) > b2 {
                        assert(is_num_char(text@[b2]));
                        assert(false);
                    }
                    assert(jc as int == b2);
                    assert(p2 as int == b3);
                    if (q2 as int) < b4 {
                        assert(text@[q2 as int] != '"');
                        assert(false);
                    }
                    if (q2 as int) > b4 {
                        assert(text@[b4] != '"');
                        assert(false);
                    }
                    assert(q2 as int == b4);
                    assert(p3 as int == b5);
        }
    }
    (Some((details, p3)), Ghost(ct))
}

/// The middle of a canonical flow-history envelope: the start date, end
/// date and unit fields, read from `p3` up to the opening of the history
/// array.  Two-sided, as [`parse_flow_history`] is.
#[verifier::rlimit(100)]
fn parse_flow_head2(text: &str, p3: usize) -> (r: Option<(String, String, String, usize)>)
    requires
        p3 <= text@.len(),
    ensures
        r matches Some(four) ==> {
            &&& p3 <= four.3 <= text@.len()
            &&& wf_text(four.0@) && wf_text(four.1@) && wf_text(four.2@)
            &&& text@.subrange(p3 as int, four.3 as int) == four.0@ + "\",\"endDate\":\""@
                + four.1@ + "\",\"unit\":\""@ + four.2@ + "\",\"history\":["@
        },
        forall|xct: Seq<char>, xdet: Seq<char>, xsd: Seq<char>, xed: Seq<char>, xun: Seq<char>, h: Seq<FlowReadingV>|
                    wf_num(xct) && wf_text(xdet) && wf_text(xsd) && wf_text(xed) && wf_text(xun)
                        && (forall|t: int| 0 <= t < h.len() ==> wf_reading(#[trigger] h[t]))
                        && text@ == #[trigger] spec_flow_history_json_raw(
                        xct,
                        xdet,
                        xsd,
                        xed,
                        xun,
                        h,
                    ) && p3 as int == "{\"code\":"@.len() + xct.len() + ",\"details\":\""@.len()
                        + xdet.len() + "\",\"message\":{\"startDate\":\""@.len() ==> (r matches Some(four) && four.0@ == xsd && four.1@ == xed && four.2@ == xun
            && four.3 as int == "{\"code\":"@.len() + xct.len() + ",\"details\":\""@.len() + xdet.len()
                + "\",\"message\":{\"startDate\":\""@.len() + xsd.len()
                + "\",\"endDate\":\""@.len() + xed.len() + "\",\"unit\":\""@.len()
                + xun.len() + "\",\"history\":["@.len()),
{
    let n = text.unicode_len();
    let (start_date, q3) = match parse_text_field(text, p3) {
        Some(x) => x,
        None => {
            proof {
                assert forall|xct: Seq<char>, xdet: Seq<char>, xsd: Seq<char>, xed: Seq<char>, xun: Seq<char>, h: Seq<FlowReadingV>|
                    wf_num(xct) && wf_text(xdet) && wf_text(xsd) && wf_text(xed) && wf_text(xun)
                        && (forall|t: int| 0 <= t < h.len() ==> wf_reading(#[trigger] h[t]))
                        && text@ == #[trigger] spec_flow_history_json_raw(
                        xct,
                        xdet,
                        xsd,
                        xed,
                        xun,
                        h,
                    ) && p3 as int == "{\"code\":"@.len() + xct.len() + ",\"details\":\""@.len()
                        + xdet.len() + "\",\"message\":{\"startDate\":\""@.len() implies false by {
                    lemma_flow_layout(text@, xct, xdet, xsd, xed, xun, h);
                    let b1 = "{\"code\":"@.len() as int;
                    let b2 = b1 + xct.len();
                    let b3 = b2 + ",\"details\":\""@.len();
                    let b4 = b3 + xdet.len();
                    let b5 = b4 + "\",\"message\":{\"startDate\":\""@.len();
                    let b6 = b5 + xsd.len();
                    let b7 = b6 + "\",\"endDate\":\""@.len();
                    let b8 = b7 + xed.len();
                    let b9 = b8 + "\",\"unit\":\""@.len();
                    let b10 = b9 + xun.len();
                    let b11 = b10 + "\",\"history\":["@.len();
                    let b12 = b11 + spec_readings_json(h).len();
                    let b13 = b12 + "]}}"@.len();
                    assert(p3 as int == b5);
                }
            }
            return None;
        },
    };
    let p4 = match expect_lit(text, q3, "\",\"endDate\":\"") {
        Some(x) => x,
        None => {
            proof {
                assert forall|xct: Seq<char>, xdet: Seq<char>, xsd: Seq<char>, xed: Seq<char>, xun: Seq<char>, h: Seq<FlowReadingV>|
                    wf_num(xct) && wf_text(xdet) && wf_text(xsd) && wf_text(xed) && wf_text(xun)
                        && (forall|t: int| 0 <= t < h.len() ==> wf_reading(#[trigger] h[t]))
                        && text@ == #[trigger] spec_flow_history_json_raw(
                        xct,
                        xdet,
                        xsd,
                        xed,
                        xun,
                        h,
                    ) && p3 as int == "{\"code\":"@.len() + xct.len() + ",\"details\":\""@.len()
                        + xdet.len() + "\",\"message\":{\"startDate\":\""@.len() implies false by {
                    lemma_flow_layout(text@, xct, xdet, xsd, xed, xun, h);
                    let b1 = "{\"code\":"@.len() as int;
                    let b2 = b1 + xct.len();
                    let b3 = b2 + ",\"details\":\""@.len();
                    let b4 = b3 + xdet.len();
                    let b5 = b4 + "\",\"message\":{\"startDate\":\""@.len();
                    let b6 = b5 + xsd.len();
                    let b7 = b6 + "\",\"endDate\":\""@.len();
                    let b8 = b7 + xed.len();
                    let b9 = b8 + "\",\"unit\":\""@.len();
                    let b10 = b9 + xun.len();
                    let b11 = b10 + "\",\"history\":["@.len();
                    let b12 = b11 + spec_readings_json(h).len();
                    let b13 = b12 + "]}}"@.len();
                    assert(p3 as int == b5);
                    if (q3 as int) < b6 {
                        assert(text@[q3 as int] != '"');
                        assert(false);
                    }
                    if (q3 as int) > b6 {
                        assert(text@[b6] != '"');
                        assert(false);
                    }
                    assert(q3 as int == b6);
                }
            }
            return None;
        },
    };
    let (end_date, q4) = match parse_text_field(text, p4) {
        Some(x) => x,
        None => {
            proof {
                assert forall|xct: Seq<char>, xdet: Seq<char>, xsd: Seq<char>, xed: Seq<char>, xun: Seq<char>, h: Seq<FlowReadingV>|
                    wf_num(xct) && wf_text(xdet) && wf_text(xsd) && wf_text(xed) && wf_text(xun)
                        && (forall|t: int| 0 <= t < h.len() ==> wf_reading(#[trigger] h[t]))
                        && text@ == #[trigger] spec_flow_history_json_raw(
                        xct,
                        xdet,
                        xsd,
                        xed,
                        xun,
                        h,
                    ) && p3 as int == "{\"code\":"@.len() + xct.len() + ",\"details\":\""@.len()
                        + xdet.len() + "\",\"message\":{\"startDate\":\""@.len() implies false by {
                    lemma_flow_layout(text@, xct, xdet, xsd, xed, xun, h);
                    let b1 = "{\"code\":"@.len() as int;
                    let b2 = b1 + xct.len();
                    let b3 = b2 + ",\"details\":\""@.len();
                    let b4 = b3 + xdet.len();
                    let b5 = b4 + "\",\"message\":{\"startDate\":\""@.len();
                    let b6 = b5 + xsd.len();
                    let b7 = b6 + "\",\"endDate\":\""@.len();
                    let b8 = b7 + xed.len();
                    let b9 = b8 + "\",\"unit\":\""@.len();
                    let b10 = b9 + xun.len();
                    let b11 = b10 + "\",\"history\":["@.len();
                    let b12 = b11 + spec_readings_json(h).len();
                    let b13 = b12 + "]}}"@.len();
                    assert(p3 as int == b5);
                    if (q3 as int) < b6 {
                        assert(text@[q3 as int] != '"');
                        assert(false);
                    }
                    if (q3 as int) > b6 {
                        assert(text@[b6] != '"');
                        assert(false);
                    }
                    assert(q3 as int == b6);
                    assert(p4 as int == b7);
                }
            }
            return None;
        },
    };
    let p5 = match expect_lit(text, q4, "\",\"unit\":\"") {
        Some(x) => x,
        None => {
            proof {
                assert forall|xct: Seq<char>, xdet: Seq<char>, xsd: Seq<char>, xed: Seq<char>, xun: Seq<char>, h: Seq<FlowReadingV>|
                    wf_num(xct) && wf_text(xdet) && wf_text(xsd) && wf_text(xed) && wf_text(xun)
                        && (forall|t: int| 0 <= t < h.len() ==> wf_reading(#[trigger] h[t]))
                        && text@ == #[trigger] spec_flow_history_json_raw(
                        xct,
                        xdet,
                        xsd,
                        xed,
                        xun,
                        h,
                    ) && p3 as int == "{\"code\":"@.len() + xct.len() + ",\"details\":\""@.len()
                        + xdet.len() + "\",\"message\":{\"startDate\":\""@.len() implies false by {
                    lemma_flow_layout(text@, xct, xdet, xsd, xed, xun, h);
                    let b1 = "{\"code\":"@.len() as int;
                    let b2 = b1 + xct.len();
                    let b3 = b2 + ",\"details\":\""@.len();
                    let b4 = b3 + xdet.len();
                    let b5 = b4 + "\",\"message\":{\"startDate\":\""@.len();
                    let b6 = b5 + xsd.len();
                    let b7 = b6 + "\",\"endDate\":\""@.len();
                    let b8 = b7 + xed.len();
                    let b9 = b8 + "\",\"unit\":\""@.len();
                    let b10 = b9 + xun.len();
                    let b11 = b10 + "\",\"history\":["@.len();
                    let b12 = b11 + spec_readings_json(h).len();
                    let b13 = b12 + "]}}"@.len();
                    assert(p3 as int == b5);
                    if (q3 as int) < b6 {
                        assert(text@[q3 as int] != '"');
                        assert(false);
                    }
                    if (q3 as int) > b6 {
                        assert(text@[b6] != '"');
                        assert(false);
                    }
                    assert(q3 as int == b6);
                    assert(p4 as int == b7);
                    if (q4 as int) < b8 {
                        assert(text@[q4 as int] != '"');
                        assert(false);
                    }
                    if (q4 as int) > b8 {
                        assert(text@[b8] != '"');
                        assert(false);
                    }
                    assert(q4 as int == b8);
                }
            }
            return None;
        },
    };
    let (unit, q5) = match parse_text_field(text, p5) {
        Some(x) => x,
        None => {
            proof {
                assert forall|xct: Seq<char>, xdet: Seq<char>, xsd: Seq<char>, xed: Seq<char>, xun: Seq<char>, h: Seq<FlowReadingV>|
                    wf_num(xct) && wf_text(xdet) && wf_text(xsd) && wf_text(xed) && wf_text(xun)
                        && (forall|t: int| 0 <= t < h.len() ==> wf_reading(#[trigger] h[t]))
                        && text@ == #[trigger] spec_flow_history_json_raw(
                        xct,
                        xdet,
                        xsd,
                        xed,
                        xun,
                        h,
                    ) && p3 as int == "{\"code\":"@.len() + xct.len() + ",\"details\":\""@.len()
                        + xdet.len() + "\",\"message\":{\"startDate\":\""@.len() implies false by {
                    lemma_flow_layout(text@, xct, xdet, xsd, xed, xun, h);
                    let b1 = "{\"code\":"@.len() as int;
                    let b2 = b1 + xct.len();
                    let b3 = b2 + ",\"details\":\""@.len();
                    let b4 = b3 + xdet.len();
                    let b5 = b4 + "\",\"message\":{\"startDate\":\""@.len();
                    let b6 = b5 + xsd.len();
                    let b7 = b6 + "\",\"endDate\":\""@.len();
                    let b8 = b7 + xed.len();
                    let b9 = b8 + "\",\"unit\":\""@.len();
                    let b10 = b9 + xun.len();
                    let b11 = b10 + "\",\"history\":["@.len();
                    let b12 = b11 + spec_readings_json(h).len();
                    let b13 = b12 + "]}}"@.len();
                    assert(p3 as int == b5);
                    if (q3 as int) < b6 {
                        assert(text@[q3 as int] != '"');
                        assert(false);
                    }
                    if (q3 as int) > b6 {
                        assert(text@[b6] != '"');
                        assert(false);
                    }
                    assert(q3 as int == b6);
                    assert(p4 as int == b7);
                    if (q4 as int) < b8 {
                        assert(text@[q4 as int] != '"');
                        assert(false);
                    }
                    if (q4 as int) > b8 {
                        assert(text@[b8] != '"');
                        assert(false);
                    }
                    assert(q4 as int == b8);
                    assert(p5 as int == b9);
                }
            }
            return None;
        },
    };
    let p6 = match expect_lit(text, q5, "\",\"history\":[") {
        Some(x) => x,
        None => {
            proof {
                assert forall|xct: Seq<char>, xdet: Seq<char>, xsd: Seq<char>, xed: Seq<char>, xun: Seq<char>, h: Seq<FlowReadingV>|
                    wf_num(xct) && wf_text(xdet) && wf_text(xsd) && wf_text(xed) && wf_text(xun)
                        && (forall|t: int| 0 <= t < h.len() ==> wf_reading(#[trigger] h[t]))
                        && text@ == #[trigger] spec_flow_history_json_raw(
                        xct,
                        xdet,
                        xsd,
                        xed,
                        xun,
                        h,
                    ) && p3 as int == "{\"code\":"@.len() + xct.len() + ",\"details\":\""@.len()
                        + xdet.len() + "\",\"message\":{\"startDate\":\""@.len() implies false by {
                    lemma_flow_layout(text@, xct, xdet, xsd, xed, xun, h);
                    let b1 = "{\"code\":"@.len() as int;
                    let b2 = b1 + xct.len();
                    let b3 = b2 + ",\"details\":\""@.len();
                    let b4 = b3 + xdet.len();
                    let b5 = b4 + "\",\"message\":{\"startDate\":\""@.len();
                    let b6 = b5 + xsd.len();
                    let b7 = b6 + "\",\"endDate\":\""@.len();
                    let b8 = b7 + xed.len();
                    let b9 = b8 + "\",\"unit\":\""@.len();
                    let b10 = b9 + xun.len();
                    let b11 = b10 + "\",\"history\":["@.len();
                    let b12 = b11 + spec_readings_json(h).len();
                    let b13 = b12 + "]}}"@.len();
                    assert(p3 as int == b5);
                    if (q3 as int) < b6 {
                        assert(text@[q3 as int] != '"');
                        assert(false);
                    }
                    if (q3 as int) > b6 {
                        assert(text@[b6] != '"');
                        assert(false);
                    }
                    assert(q3 as int == b6);
                    assert(p4 as int == b7);
                    if (q4 as int) < b8 {
                        assert(text@[q4 as int] != '"');
                        assert(false);
                    }
                    if (q4 as int) > b8 {
                        assert(text@[b8] != '"');
                        assert(false);
                    }
                    assert(q4 as int == b8);
                    assert(p5 as int == b9);
                    if (q5 as int) < b10 {
                        assert(text@[q5 as int] != '"');
                        assert(false);
                    }
                    if (q5 as int) > b10 {
                        assert(text@[b10] != '"');
                        assert(false);
                    }
                    assert(q5 as int == b10);
                }
            }
            return None;
        },
    };
    proof {
        lemma_cat(text@, p3 as int, q3 as int, p4 as int);
        lemma_cat(text@, p3 as int, p4 as int, q4 as int);
        lemma_cat(text@, p3 as int, q4 as int, p5 as int);
        lemma_cat(text@, p3 as int, p5 as int, q5 as int);
        lemma_cat(text@, p3 as int, q5 as int, p6 as int);
        assert(text@.subrange(p3 as int, p6 as int) == start_date@ + "\",\"endDate\":\""@
            + end_date@ + "\",\"unit\":\""@ + unit@ + "\",\"history\":["@);
        assert forall|xct: Seq<char>, xdet: Seq<char>, xsd: Seq<char>, xed: Seq<char>, xun: Seq<char>, h: Seq<FlowReadingV>|
                    wf_num(xct) && wf_text(xdet) && wf_text(xsd) && wf_text(xed) && wf_text(xun)
                        && (forall|t: int| 0 <= t < h.len() ==> wf_reading(#[trigger] h[t]))
                        && text@ == #[trigger] spec_flow_history_json_raw(
                        xct,
                        xdet,
                        xsd,
                        xed,
                        xun,
                        h,
                    ) && p3 as int == "{\"code\":"@.len() + xct.len() + ",\"details\":\""@.len()
                        + xdet.len() + "\",\"message\":{\"startDate\":\""@.len() implies (start_date@ == xsd && end_date@ == xed && unit@ == xun && p6 as int
            == "{\"code\":"@.len() + xct.len() + ",\"details\":\""@.len() + xdet.len()
                + "\",\"message\":{\"startDate\":\""@.len() + xsd.len()
                + "\",\"endDate\":\""@.len() + xed.len() + "\",\"unit\":\""@.len()
                + xun.len() + "\",\"history\":["@.len()) by {
                    lemma_flow_layout(text@, xct, xdet, xsd, xed, xun, h);
                    let b1 = "{\"code\":"@.len() as int;
                    let b2 = b1 + xct.len();
                    let b3 = b2 + ",\"details\":\""@.len();
                    let b4 = b3 + xdet.len();
                    let b5 = b4 + "\",\"message\":{\"startDate\":\""@.len();
                    let b6 = b5 + xsd.len();
                    let b7 = b6 + "\",\"endDate\":\""@.len();
                    let b8 = b7 + xed.len();
                    let b9 = b8 + "\",\"unit\":\""@.len();
                    let b10 = b9 + xun.len();
                    let b11 = b10 + "\",\"history\":["@.len();
                    let b12 = b11 + spec_readings_json(h).len();
                    let b13 = b12 + "]}}"@.len();
                    assert(p3 as int == b5);
                    if (q3 as int) < b6 {
                        assert(text@[q3 as int] != '"');
                        assert(false);
                    }
                    if (q3 as int) > b6 {
                        assert(text@[b6] != '"');
                        assert(false);
                    }
                    assert(q3 as int == b6);
                    assert(p4 as int == b7);
                    if (q4 as int) < b8 {
                        assert(text@[q4 as int] != '"');
                        assert(false);
                    }
                    if (q4 as int) > b8 {
                        assert(text@[b8] != '"');
                        assert(false);
                    }
                    assert(q4 as int == b8);
                    assert(p5 as int == b9);
                    if (q5 as int) < b10 {
                        assert(text@[q5 as int] != '"');
                        assert(false);
                    }
                    if (q5 as int) > b10 {
                        assert(text@[b10] != '"');
                        assert(false);
                    }
                    assert(q5 as int == b10);
                    assert(p6 as int == b11);
        }
    }
    Some((start_date, end_date, unit, p6))
}

/// Parses the flow-history envelope and returns its reading history, every
/// field verbatim and in chronological order.  The contract is two-sided:
/// on success the whole input is exactly the canonical text of an envelope
/// holding exactly the returned history, and conversely the canonical text
/// of any well-formed envelope is accepted and yields exactly its history,
/// whatever its status code says.
#[verifier::rlimit(100)]
pub fn parse_flow_history(text: &str) -> (r: Result<Vec<FlowReading>, ParseError>)
    ensures
        r matches Ok(h) ==> is_flow_history_image(text@, h.deep_view()),
        forall|h2: Seq<FlowReadingV>| #[trigger] is_flow_history_image(text@, h2) ==> (
        r matches Ok(got) && got.deep_view() == h2),
{
    let n = text.unicode_len();
    let (rh, gct) = parse_flow_head1(text);
    let (details, p3) = match rh {
        Some(x) => x,
        None => {
            proof {
                assert forall|xct: Seq<char>, xdet: Seq<char>, xsd: Seq<char>, xed: Seq<char>, xun: Seq<char>, h: Seq<FlowReadingV>|
                    wf_num(xct) && wf_text(xdet) && wf_text(xsd) && wf_text(xed) && wf_text(xun)
                        && (forall|t: int| 0 <= t < h.len() ==> wf_reading(#[trigger] h[t]))
                        && text@ == #[trigger] spec_flow_history_json_raw(
                        xct,
                        xdet,
                        xsd,
                        xed,
                        xun,
                        h,
                    ) implies false by {}
            }
            return Err(ParseError::Malformed);
        },
    };
    let ghost ct: Seq<char> = gct@;
    let (start_date, end_date, unit, p6) = match parse_flow_head2(text, p3) {
        Some(x) => x,
        None => {
            proof {
                assert forall|xct: Seq<char>, xdet: Seq<char>, xsd: Seq<char>, xed: Seq<char>, xun: Seq<char>, h: Seq<FlowReadingV>|
                    wf_num(xct) && wf_text(xdet) && wf_text(xsd) && wf_text(xed) && wf_text(xun)
                        && (forall|t: int| 0 <= t < h.len() ==> wf_reading(#[trigger] h[t]))
                        && text@ == #[trigger] spec_flow_history_json_raw(
                        xct,
                        xdet,
                        xsd,
                        xed,
                        xun,
                        h,
                    ) implies false by {}
            }
            return Err(ParseError::Malformed);
        },
    };
    let mut history: Vec<FlowReading> = Vec::new();
    let jarr: usize;
    if p6 < n && text.get_char(p6) == ']' {
        jarr = p6;
        proof {
            assert(history.deep_view() =~= Seq::<FlowReadingV>::empty());
            assert(history.deep_view().map_values(|v: FlowReadingV| spec_reading_json(v)) =~= Seq::<
                Seq<char>,
            >::empty());
            assert(text@.subrange(p6 as int, jarr as int) =~= spec_readings_json(
                history.deep_view(),
            ));
            assert forall|xct: Seq<char>, xdet: Seq<char>, xsd: Seq<char>, xed: Seq<char>, xun: Seq<char>, h: Seq<FlowReadingV>|
                    wf_num(xct) && wf_text(xdet) && wf_text(xsd) && wf_text(xed) && wf_text(xun)
                        && (forall|t: int| 0 <= t < h.len() ==> wf_reading(#[trigger] h[t]))
                        && text@ == #[trigger] spec_flow_history_json_raw(
                        xct,
                        xdet,
                        xsd,
                        xed,
                        xun,
                        h,
                    ) implies (history.deep_view() == h && text@.subrange(
                jarr as int,
                text@.len() as int,
            ) == "]}}"@ && jarr as int + "]}}"@.len() == text@.len()) by {
                    lemma_flow_layout(text@, xct, xdet, xsd, xed, xun, h);
                    let b1 = "{\"code\":"@.len() as int;
                    let b2 = b1 + xct.len();
                    let b3 = b2 + ",\"details\":\""@.len();
                    let b4 = b3 + xdet.len();
                    let b5 = b4 + "\",\"message\":{\"startDate\":\""@.len();
                    let b6 = b5 + xsd.len();
                    let b7 = b6 + "\",\"endDate\":\""@.len();
                    let b8 = b7 + xed.len();
                    let b9 = b8 + "\",\"unit\":\""@.len();
                    let b10 = b9 + xun.len();
                    let b11 = b10 + "\",\"history\":["@.len();
                    let b12 = b11 + spec_readings_json(h).len();
                    let b13 = b12 + "]}}"@.len();
                    assert(p6 as int == b11);
                    if h.len() >= 1 {
                        assert(text@[b11] == '{');
                        assert(false);
                    }
                    assert(history.deep_view() =~= h);
                    assert(jarr as int == b12);
            }
        }
    } else {
        let (ri, gi) = parse_reading_items(text, p6, &mut history);
        proof {
            assert forall|xct: Seq<char>, xdet: Seq<char>, xsd: Seq<char>, xed: Seq<char>, xun: Seq<char>, h: Seq<FlowReadingV>|
                    wf_num(xct) && wf_text(xdet) && wf_text(xsd) && wf_text(xed) && wf_text(xun)
                        && (forall|t: int| 0 <= t < h.len() ==> wf_reading(#[trigger] h[t]))
                        && text@ == #[trigger] spec_flow_history_json_raw(
                        xct,
                        xdet,
                        xsd,
                        xed,
                        xun,
                        h,
                    ) implies (ri matches Some(jj) && gi@ == h && history.deep_view() == h
                && text@.subrange(jj as int, text@.len() as int) == "]}}"@ && jj as int
                + "]}}"@.len() == text@.len()) by {
                    lemma_flow_layout(text@, xct, xdet, xsd, xed, xun, h);
                    let b1 = "{\"code\":"@.len() as int;
                    let b2 = b1 + xct.len();
                    let b3 = b2 + ",\"details\":\""@.len();
                    let b4 = b3 + xdet.len();
                    let b5 = b4 + "\",\"message\":{\"startDate\":\""@.len();
                    let b6 = b5 + xsd.len();
                    let b7 = b6 + "\",\"endDate\":\""@.len();
                    let b8 = b7 + xed.len();
                    let b9 = b8 + "\",\"unit\":\""@.len();
                    let b10 = b9 + xun.len();
                    let b11 = b10 + "\",\"history\":["@.len();
                    let b12 = b11 + spec_readings_json(h).len();
                    let b13 = b12 + "]}}"@.len();
                    assert(p6 as int == b11);
                    if h.len() == 0 {
                        assert(text@[b11] == ']');
                        assert(false);
                    }
                    assert(text@.skip(p6 as int) =~= text@.subrange(p6 as int, text@.len() as int));
                    lemma_cat(text@, b11, b12, b13);
                    assert(text@.skip(p6 as int) == spec_readings_json(h) + text@.subrange(
                        b12,
                        b13,
                    ));
                    assert(text@.subrange(b12, b13).len() > 0);
                    assert(text@.subrange(b12, b13)[0] == text@[b12]);
                    assert(text@[b12] == ']');
                    assert(gi@ == h);
                    assert(history.deep_view() =~= Seq::<FlowReadingV>::empty() + gi@);
                    assert(history.deep_view() == h);
                    assert(text@.subrange(b12, b13) == "]}}"@);
            }
        }
        jarr = match ri {
            Some(x) => x,
            None => {
                proof {
                    assert forall|xct: Seq<char>, xdet: Seq<char>, xsd: Seq<char>, xed: Seq<char>, xun: Seq<char>, h: Seq<FlowReadingV>|
                    wf_num(xct) && wf_text(xdet) && wf_text(xsd) && wf_text(xed) && wf_text(xun)
                        && (forall|t: int| 0 <= t < h.len() ==> wf_reading(#[trigger] h[t]))
                        && text@ == #[trigger] spec_flow_history_json_raw(
                        xct,
                        xdet,
                        xsd,
                        xed,
                        xun,
                        h,
                    ) implies false by {}
                }
                return Err(ParseError::Malformed);
            },
        };
        proof {
            assert(history.deep_view() =~= gi@);
        }
    }
    let p7 = match expect_lit(text, jarr, "]}}") {
        Some(x) => x,
        None => {
            proof {
                assert forall|xct: Seq<char>, xdet: Seq<char>, xsd: Seq<char>, xed: Seq<char>, xun: Seq<char>, h: Seq<FlowReadingV>|
                    wf_num(xct) && wf_text(xdet) && wf_text(xsd) && wf_text(xed) && wf_text(xun)
                        && (forall|t: int| 0 <= t < h.len() ==> wf_reading(#[trigger] h[t]))
                        && text@ == #[trigger] spec_flow_history_json_raw(
                        xct,
                        xdet,
                        xsd,
                        xed,
                        xun,
                        h,
                    ) implies false by {
                    assert(text@.subrange(jarr as int, jarr as int + "]}}"@.len() as int)
                        == "]}}"@);
                }
            }
            return Err(ParseError::Malformed);
        },
    };
    if p7 != n {
        proof {
            assert forall|xct: Seq<char>, xdet: Seq<char>, xsd: Seq<char>, xed: Seq<char>, xun: Seq<char>, h: Seq<FlowReadingV>|
                    wf_num(xct) && wf_text(xdet) && wf_text(xsd) && wf_text(xed) && wf_text(xun)
                        && (forall|t: int| 0 <= t < h.len() ==> wf_reading(#[trigger] h[t]))
                        && text@ == #[trigger] spec_flow_history_json_raw(
                        xct,
                        xdet,
                        xsd,
                        xed,
                        xun,
                        h,
                    ) implies false by {}
        }
        return Err(ParseError::Malformed);
    }
    proof {
        lemma_cat(text@, 0, p3 as int, p6 as int);
        assert(text@.subrange(0, p6 as int) =~= "{\"code\":"@ + ct + ",\"details\":\""@
            + details@ + "\",\"message\":{\"startDate\":\""@ + start_date@
            + "\",\"endDate\":\""@ + end_date@ + "\",\"unit\":\""@ + unit@
            + "\",\"history\":["@);
        lemma_cat(text@, 0, p6 as int, jarr as int);
        lemma_cat(text@, 0, jarr as int, p7 as int);
        assert(text@.subrange(0, n as int) =~= text@);
        assert(text@ == spec_flow_history_json_raw(
            ct,
            details@,
            start_date@,
            end_date@,
            unit@,
            history.deep_view(),
        ));
        assert(wf_num(ct));
        assert(forall|t: int|
            0 <= t < history.deep_view().len() ==> wf_reading(
                #[trigger] history.deep_view()[t],
            ));
        assert(wf_text(details@) && wf_text(start_date@) && wf_text(end_date@) && wf_text(
            unit@,
        ));
        assert(is_flow_history_image(text@, history.deep_view()));
        assert forall|xct: Seq<char>, xdet: Seq<char>, xsd: Seq<char>, xed: Seq<char>, xun: Seq<char>, h: Seq<FlowReadingV>|
                    wf_num(xct) && wf_text(xdet) && wf_text(xsd) && wf_text(xed) && wf_text(xun)
                        && (forall|t: int| 0 <= t < h.len() ==> wf_reading(#[trigger] h[t]))
                        && text@ == #[trigger] spec_flow_history_json_raw(
                        xct,
                        xdet,
                        xsd,
                        xed,
                        xun,
                        h,
                    ) implies (history.deep_view() == h) by {}
    }
    Ok(history)
}

} // verus!
