//! The sighting feed parser: field grammars, the description key/value
//! convention, assembly of sightings, and the sorted parse of a whole feed
//! document.

use vstd::prelude::*;
use vstd::string::StringSliceAdditionalSpecFns;
use vstd::string::StrSliceExecFns;
use vstd::seq_lib::*;
use crate::text::{match_prefix, digit_run_len, digits_val, all_digits, parse_digits,
    starts_with_at, digit_run_from, subvec, match_at, find_from, find_bytes_from, contains_seq,
    is_match_at, strip_tabs, strip_suffix_rec, lines_of, MAX_PARSED};
use crate::dates::{datetime_spec, local_timestamp_of, parse_datetime, local_timestamp};

verus! {

/// Why a feed document fails to parse.
#[derive(Clone, Copy, Debug, PartialEq, Eq, Structural)]
pub enum ParseError {
    /// The bytes are not a well-formed feed document.
    BadDocument,
    /// A qualifying entry's description lacks one of the required keys.
    MissingField,
    /// The Date/Time text does not follow the timestamp grammar, or the
    /// zone assigns it no single instant.
    BadTimestamp,
    /// An Approach/Departure value does not follow `<degrees>° above
    /// <compass point>` with the elevation in range.
    BadSkyLocation,
    /// A Duration value contains no `<minutes> minute` phrase.
    BadDuration,
    /// A Maximum Elevation value is not an integer in range.
    BadElevation,
}

/// A position in the sky: a compass direction and an elevation in degrees
/// above the horizon.
#[derive(Clone, Debug)]
pub struct SkyLocation {
    pub direction: String,
    pub elevation: i32,
}

/// One predicted visibility event. `datetime` is the event's instant in
/// seconds of the Unix epoch.
#[derive(Clone, Debug)]
pub struct Sighting {
    pub datetime: i64,
    pub approach: SkyLocation,
    pub departure: SkyLocation,
    pub duration: i32,
    pub max_elevation: i32,
}

/// Mathematical model of a sky position.
pub struct SpecSky {
    pub direction: Seq<char>,
    pub elevation: int,
}

/// Mathematical model of a sighting.
pub struct SpecSighting {
    pub when: int,
    pub approach: SpecSky,
    pub departure: SpecSky,
    pub duration: int,
    pub max_elevation: int,
}

/// The model a `SkyLocation` stands for.
pub open spec fn sky_abs(s: SkyLocation) -> SpecSky {
    SpecSky { direction: s.direction@, elevation: s.elevation as int }
}

/// The model a `Sighting` stands for.
pub open spec fn sighting_abs(s: Sighting) -> SpecSighting {
    SpecSighting {
        when: s.datetime as int,
        approach: sky_abs(s.approach),
        departure: sky_abs(s.departure),
        duration: s.duration as int,
        max_elevation: s.max_elevation as int,
    }
}

/// The models of a whole list of sightings.
pub open spec fn abs_seq(v: Seq<Sighting>) -> Seq<SpecSighting> {
    v.map_values(|x: Sighting| sighting_abs(x))
}

/// ASCII bytes read as characters.
pub open spec fn ascii_chars(b: Seq<u8>) -> Seq<char> {
    Seq::new(b.len(), |i: int| b[i] as char)
}

/// The sixteen compass point names.
pub open spec fn compass_names() -> Seq<Seq<u8>> {
    seq![
        "N".spec_bytes(),
        "NNE".spec_bytes(),
        "NE".spec_bytes(),
        "ENE".spec_bytes(),
        "E".spec_bytes(),
        "ESE".spec_bytes(),
        "SE".spec_bytes(),
        "SSE".spec_bytes(),
        "S".spec_bytes(),
        "SSW".spec_bytes(),
        "SW".spec_bytes(),
        "WSW".spec_bytes(),
        "W".spec_bytes(),
        "WNW".spec_bytes(),
        "NW".spec_bytes(),
        "NNW".spec_bytes(),
    ]
}

/// `b` names one of the sixteen compass points.
pub open spec fn is_compass(b: Seq<u8>) -> bool {
    compass_names().contains(b)
}

/// The infix of a sky-location value between elevation and direction.
pub open spec fn above_pat() -> Seq<u8> {
    "° above ".spec_bytes()
}

/// A sky-location value: `<degrees>° above <compass point>` with the
/// elevation within 0..=90 degrees.
pub open spec fn sky_spec(s: Seq<u8>) -> Option<SpecSky> {
    let k = digit_run_len(s);
    if k < 1 {
        None
    } else {
        let elev = digits_val(s.take(k));
        let after = s.skip(k);
        if !match_prefix(after, above_pat()) {
            None
        } else {
            let dir = after.skip(above_pat().len() as int);
            if is_compass(dir) && 0 <= elev <= 90 {
                Some(SpecSky { direction: ascii_chars(dir), elevation: elev })
            } else {
                None
            }
        }
    }
}

/// Compare two byte strings.
fn bytes_eq(a: &Vec<u8>, b: &Vec<u8>) -> (r: bool)
    ensures
        r == (a@ == b@),
{
    if a.len() != b.len() {
        return false;
    }
    let mut i: usize = 0;
    while i < a.len()
        invariant
            i <= a@.len(),
            a@.len() == b@.len(),
            forall|m: int| 0 <= m < i ==> a@[m] == b@[m],
        decreases a@.len() - i,
    {
        if a[i] != b[i] {
            return false;
        }
        i += 1;
    }
    proof {
        assert(a@ =~= b@);
    }
    true
}

/// An ASCII string literal's characters are its bytes read back as
/// characters.
proof fn lemma_ascii_roundtrip(s: &str)
    requires
        s.is_ascii(),
    ensures
        ascii_chars(s.spec_bytes()) == s@,
{
    broadcast use vstd::string::is_ascii_spec_bytes;

    assert(ascii_chars(s.spec_bytes()) =~= s@);
}

/// Map a compass-point byte string to its owned name; rejects anything that
/// is not one of the sixteen points.
fn compass_string(dir: &Vec<u8>) -> (r: Option<String>)
    ensures
        match r {
            Option::Some(st) => is_compass(dir@) && st@ == ascii_chars(dir@),
            Option::None => !is_compass(dir@),
        },
{
    let names: [&str; 16] = ["N", "NNE", "NE", "ENE", "E", "ESE", "SE", "SSE", "S", "SSW", "SW", "WSW", "W", "WNW", "NW", "NNW"];
    proof {
        reveal_strlit("N");
        reveal_strlit("NNE");
        reveal_strlit("NE");
        reveal_strlit("ENE");
        reveal_strlit("E");
        reveal_strlit("ESE");
        reveal_strlit("SE");
        reveal_strlit("SSE");
        reveal_strlit("S");
        reveal_strlit("SSW");
        reveal_strlit("SW");
        reveal_strlit("WSW");
        reveal_strlit("W");
        reveal_strlit("WNW");
        reveal_strlit("NW");
        reveal_strlit("NNW");
    }
    proof {
        assert forall|m: int| 0 <= m < 16 implies ascii_chars(names@[m].spec_bytes())
            == names@[m]@ by {
            lemma_ascii_roundtrip(names@[m]);
        }
    }
    let mut k: usize = 0;
    while k < 16
        invariant
            k <= 16,
            forall|m: int| 0 <= m < 16 ==> names@[m].spec_bytes() == compass_names()[m],
            forall|m: int| 0 <= m < 16 ==> ascii_chars(names@[m].spec_bytes()) == names@[m]@,
            forall|m: int| 0 <= m < k ==> dir@ != compass_names()[m],
        decreases 16 - k,
    {
        let pat = names[k].as_bytes_vec();
        if bytes_eq(dir, &pat) {
            let st = names[k].to_owned();
            proof {
                assert(compass_names().contains(dir@)) by {
                    assert(compass_names()[k as int] == dir@);
                }
            }
            return Some(st);
        }
        k += 1;
    }
    proof {
        assert(!is_compass(dir@)) by {
            if compass_names().contains(dir@) {
                let m = choose|m: int|
                    0 <= m < compass_names().len() && compass_names()[m] == dir@;
                assert(dir@ != compass_names()[m]);
            }
        }
    }
    None
}

/// Parse an Approach or Departure value.
pub fn parse_skylocation(s: &Vec<u8>) -> (r: Option<SkyLocation>)
    ensures
        match r {
            Option::Some(sk) => sky_spec(s@) == Some(sky_abs(sk)) && 0 <= sk.elevation <= 90,
            Option::None => sky_spec(s@) is None,
        },
{
    proof {
        assert(s@.skip(0) =~= s@);
    }
    let k = digit_run_from(s, 0);
    if k < 1 {
        return None;
    }
    proof {
        assert(s@.subrange(0, k as int) =~= s@.take(k as int));
    }
    let elev64 = match parse_digits(s, 0, k) {
        Some(v) => v,
        None => {
            proof {
                crate::dates::digit_run_all_digits(s@);
                assert(digits_val(s@.take(k as int)) > MAX_PARSED);
            }
            return None;
        },
    };
    let pat = "° above ".as_bytes_vec();
    if !starts_with_at(s, k, &pat) {
        return None;
    }
    if elev64 > 90 {
        return None;
    }
    let s_len = s.len();
    proof {
        assert(s@.len() == s_len);
        assert(match_prefix(s@.skip(k as int), pat@));
        assert(k + pat@.len() <= s@.len());
    }
    let dstart = k + pat.len();
    proof {
        assert(s@.skip(k as int).skip(pat@.len() as int) =~= s@.skip(dstart as int));
    }
    let dir = subvec(s, dstart, s.len());
    proof {
        assert(dir@ =~= s@.skip(dstart as int));
    }
    match compass_string(&dir) {
        Some(st) => Some(SkyLocation { direction: st, elevation: elev64 as i32 }),
        None => None,
    }
}

/// The phrase that must follow the minutes in a Duration value.
pub open spec fn minute_pat() -> Seq<u8> {
    " minute".spec_bytes()
}

/// A Duration value: the first digit run immediately followed by
/// `" minute"`, read as minutes; `None` when no such phrase occurs or the
/// number is out of range.
pub open spec fn duration_spec(s: Seq<u8>) -> Option<int>
    decreases s.len(),
{
    let k = digit_run_len(s);
    if k >= 1 && match_prefix(s.skip(k), minute_pat()) {
        if digits_val(s.take(k)) <= MAX_PARSED {
            Some(digits_val(s.take(k)))
        } else {
            None
        }
    } else if s.len() == 0 {
        None
    } else {
        duration_spec(s.drop_first())
    }
}

/// Parse a Duration value.
pub fn parse_duration(s: &Vec<u8>) -> (r: Option<i32>)
    ensures
        match r {
            Option::Some(d) => duration_spec(s@) == Some(d as int) && d >= 0,
            Option::None => duration_spec(s@) is None,
        },
{
    let pat = " minute".as_bytes_vec();
    let mut pos: usize = 0;
    proof {
        assert(s@.skip(0) =~= s@);
    }
    while pos < s.len()
        invariant
            pos <= s@.len(),
            pat@ == minute_pat(),
            duration_spec(s@) == duration_spec(s@.skip(pos as int)),
        decreases s@.len() - pos,
    {
        let ghost rest = s@.skip(pos as int);
        let k = digit_run_from(s, pos);
        proof {
            if k > 0 {
                assert(s@.skip(pos as int).skip(k as int) =~= s@.skip(pos + k));
            }
        }
        if k >= 1 && starts_with_at(s, pos + k, &pat) {
            proof {
                assert(match_prefix(rest.skip(k as int), minute_pat()));
                assert(s@.subrange(pos as int, pos + k) =~= rest.take(k as int));
            }
            let v = match parse_digits(s, pos, pos + k) {
                Some(v) => v,
                None => {
                    proof {
                        crate::dates::digit_run_all_digits(rest);
                        assert(digits_val(rest.take(k as int)) > MAX_PARSED);
                    }
                    return None;
                },
            };
            return Some(v as i32);
        }
        proof {
            assert(rest.len() > 0);
            assert(!(digit_run_len(rest) >= 1 && match_prefix(
                rest.skip(digit_run_len(rest)),
                minute_pat(),
            )));
            assert(rest.drop_first() =~= s@.skip(pos as int + 1));
        }
        pos += 1;
    }
    proof {
        assert(s@.skip(pos as int).len() == 0);
    }
    None
}

/// The degree sign stripped from the end of a Maximum Elevation value.
pub open spec fn degree_pat() -> Seq<u8> {
    "°".spec_bytes()
}

/// A signed decimal integer in the style of the standard library's integer
/// parse: an optional sign followed by digits, within the parser's range.
pub open spec fn int_val_spec(t: Seq<u8>) -> Option<int> {
    if t.len() == 0 {
        None
    } else if t[0] == 43 || t[0] == 45 {
        let d = t.drop_first();
        if d.len() == 0 || !all_digits(d) || digits_val(d) > MAX_PARSED {
            None
        } else if t[0] == 45 {
            Some(-digits_val(d))
        } else {
            Some(digits_val(d))
        }
    } else if !all_digits(t) || digits_val(t) > MAX_PARSED {
        None
    } else {
        Some(digits_val(t))
    }
}

/// A Maximum Elevation value: an integer with trailing degree signs
/// removed, within 0..=90 degrees.
pub open spec fn elevation_spec(s: Seq<u8>) -> Option<int> {
    let t = strip_suffix_rec(s, degree_pat());
    match int_val_spec(t) {
        Option::None => None,
        Option::Some(v) => if 0 <= v <= 90 {
            Some(v)
        } else {
            None
        },
    }
}

/// Parse a Maximum Elevation value.
pub fn parse_elevation(s: &Vec<u8>) -> (r: Option<i32>)
    ensures
        match r {
            Option::Some(v) => elevation_spec(s@) == Some(v as int) && 0 <= v <= 90,
            Option::None => elevation_spec(s@) is None,
        },
{
    let pat = "°".as_bytes_vec();
    let pl = pat.len();
    proof {
        assert(s@.take(s@.len() as int) =~= s@);
    }
    let mut t_end: usize = s.len();
    while t_end >= pl && pl > 0 && match_at(s, &pat, t_end - pl)
        invariant
            t_end <= s@.len(),
            pl == pat@.len(),
            pat@ == degree_pat(),
            strip_suffix_rec(s@, degree_pat()) == strip_suffix_rec(
                s@.take(t_end as int),
                degree_pat(),
            ),
        decreases t_end,
    {
        let ghost t = s@.take(t_end as int);
        proof {
            assert(t.subrange(t_end - pl, t_end as int) =~= s@.subrange(
                t_end - pl,
                t_end as int,
            ));
            assert(t.subrange(t_end - pl, t_end as int) == degree_pat());
            assert(t.take(t_end - pl) =~= s@.take(t_end - pl));
        }
        t_end = t_end - pl;
    }
    let ghost t = s@.take(t_end as int);
    proof {
        if t_end >= pl && pl > 0 {
            assert(!is_match_at(s@, degree_pat(), t_end - pl));
            assert(t.subrange(t_end - pl, t_end as int) =~= s@.subrange(
                t_end - pl,
                t_end as int,
            ));
        }
        assert(strip_suffix_rec(t, degree_pat()) == t);
        assert(elevation_spec(s@) == match int_val_spec(t) {
            Option::None => None,
            Option::Some(v) => if 0 <= v <= 90 {
                Some(v)
            } else {
                None
            },
        });
    }
    if t_end == 0 {
        return None;
    }
    let first = s[0];
    let neg = first == 45;
    let start: usize = if first == 43 || first == 45 {
        1
    } else {
        0
    };
    if start >= t_end {
        return None;
    }
    proof {
        assert(t[0] == s@[0]);
        if start == 1 {
            assert(t.drop_first() =~= s@.subrange(1, t_end as int));
        } else {
            assert(t =~= s@.subrange(0, t_end as int));
        }
    }
    let v64 = match parse_digits(s, start, t_end) {
        Some(v) => v,
        None => {
            return None;
        },
    };
    if neg {
        if v64 == 0 {
            Some(0)
        } else {
            None
        }
    } else {
        if v64 > 90 {
            None
        } else {
            Some(v64 as i32)
        }
    }
}

/// Suffix stripped from every description line.
pub open spec fn br_pat() -> Seq<u8> {
    " <br/>".spec_bytes()
}

/// Separator between a description key and its value.
pub open spec fn sep_pat() -> Seq<u8> {
    ": ".spec_bytes()
}

/// A description line with leading tabs and trailing `" <br/>"` markers
/// removed.
pub open spec fn clean_line(l: Seq<u8>) -> Seq<u8> {
    strip_suffix_rec(strip_tabs(l), br_pat())
}

/// The key/value reading of one description line: the text before the
/// first `": "` and the text after it; lines without the separator carry no
/// pair.
pub open spec fn kv_of(l: Seq<u8>) -> Option<(Seq<u8>, Seq<u8>)> {
    let c = clean_line(l);
    match find_from(c, sep_pat(), 0) {
        Option::None => None,
        Option::Some(i) => Some((c.take(i), c.skip(i + sep_pat().len()))),
    }
}

/// The key/value pairs of a sequence of lines, in order.
pub open spec fn pairs_of_lines(ls: Seq<Seq<u8>>) -> Seq<(Seq<u8>, Seq<u8>)>
    decreases ls.len(),
{
    if ls.len() == 0 {
        Seq::empty()
    } else {
        let rest = pairs_of_lines(ls.drop_first());
        match kv_of(ls[0]) {
            Option::None => rest,
            Option::Some(p) => seq![p] + rest,
        }
    }
}

/// The key/value pairs of a whole description.
pub open spec fn pairs_of(desc: Seq<u8>) -> Seq<(Seq<u8>, Seq<u8>)> {
    pairs_of_lines(lines_of(desc))
}

/// The pairs a vector of byte-string pairs stands for.
pub open spec fn pairs_view(ps: Seq<(Vec<u8>, Vec<u8>)>) -> Seq<(Seq<u8>, Seq<u8>)> {
    ps.map_values(|p: (Vec<u8>, Vec<u8>)| (p.0@, p.1@))
}

/// Split one description line into its key/value pair, if it has one.
fn process_line(l: &Vec<u8>) -> (r: Option<(Vec<u8>, Vec<u8>)>)
    ensures
        match r {
            Option::Some(p) => kv_of(l@) == Some((p.0@, p.1@)),
            Option::None => kv_of(l@) is None,
        },
{
    let mut st: usize = 0;
    proof {
        assert(l@.skip(0) =~= l@);
    }
    while st < l.len() && l[st] == 9
        invariant
            st <= l@.len(),
            strip_tabs(l@) == strip_tabs(l@.skip(st as int)),
        decreases l@.len() - st,
    {
        proof {
            assert(l@.skip(st as int)[0] == l@[st as int]);
            assert(l@.skip(st as int).drop_first() =~= l@.skip(st as int + 1));
        }
        st += 1;
    }
    proof {
        if st < l@.len() {
            assert(l@.skip(st as int)[0] == l@[st as int]);
        }
        assert(strip_tabs(l@) == l@.skip(st as int));
    }
    let pat = " <br/>".as_bytes_vec();
    let pl = pat.len();
    let mut end: usize = l.len();
    proof {
        assert(l@.subrange(st as int, end as int) =~= l@.skip(st as int));
    }
    while end - st >= pl && pl > 0 && match_at(l, &pat, end - pl)
        invariant
            st <= end <= l@.len(),
            pl == pat@.len(),
            pat@ == br_pat(),
            strip_suffix_rec(l@.skip(st as int), br_pat()) == strip_suffix_rec(
                l@.subrange(st as int, end as int),
                br_pat(),
            ),
        decreases end,
    {
        let ghost t = l@.subrange(st as int, end as int);
        proof {
            assert(t.subrange(t.len() - pl, t.len() as int) =~= l@.subrange(
                end - pl,
                end as int,
            ));
            assert(t.take(t.len() - pl) =~= l@.subrange(st as int, end - pl));
        }
        end = end - pl;
    }
    let ghost c = clean_line(l@);
    proof {
        let t = l@.subrange(st as int, end as int);
        if end - st >= pl && pl > 0 {
            assert(!is_match_at(l@, br_pat(), end - pl));
            assert(t.subrange(t.len() - pl, t.len() as int) =~= l@.subrange(
                end - pl,
                end as int,
            ));
        }
        assert(strip_suffix_rec(t, br_pat()) == t);
        assert(c == t);
    }
    let cleaned = subvec(l, st, end);
    proof {
        assert(cleaned@ == c);
    }
    let sep = ": ".as_bytes_vec();
    match find_bytes_from(&cleaned, &sep, 0) {
        None => None,
        Some(i) => {
            proof {
                crate::text::lemma_find_from_bounds(c, sep_pat(), 0);
            }
            let key = subvec(&cleaned, 0, i);
            let val = subvec(&cleaned, i + sep.len(), cleaned.len());
            proof {
                assert(key@ =~= c.take(i as int));
                assert(val@ =~= c.skip(i + sep_pat().len()));
            }
            Some((key, val))
        },
    }
}

/// Split a description into its key/value pairs, in line order.
fn description_pairs(desc: &Vec<u8>) -> (ps: Vec<(Vec<u8>, Vec<u8>)>)
    ensures
        pairs_view(ps@) == pairs_of(desc@),
{
    let mut nl: Vec<u8> = Vec::new();
    nl.push(10);
    proof {
        assert(nl@ =~= seq![10u8]);
    }
    let mut ps: Vec<(Vec<u8>, Vec<u8>)> = Vec::new();
    let mut pos: usize = 0;
    let d_len = desc.len();
    proof {
        assert(desc@.skip(0) =~= desc@);
        assert(pairs_view(ps@) =~= Seq::<(Seq<u8>, Seq<u8>)>::empty());
    }
    loop
        invariant
            pos <= desc@.len(),
            d_len == desc@.len(),
            nl@ == seq![10u8],
            pairs_of(desc@) == pairs_view(ps@) + pairs_of_lines(
                lines_of(desc@.skip(pos as int)),
            ),
        decreases desc@.len() - pos,
    {
        let ghost rest = desc@.skip(pos as int);
        let ghost lines = lines_of(rest);
        match find_bytes_from(desc, &nl, pos) {
            Some(i) => {
                proof {
                    crate::text::lemma_find_shift(desc@, nl@, pos as int, pos as int);
                    crate::text::lemma_find_from_bounds(desc@, nl@, pos as int);
                    assert(find_from(rest, seq![10u8], 0) == Some(i - pos));
                    assert(lines == seq![rest.take(i - pos)] + lines_of(rest.skip(i - pos + 1)));
                }
                let line = subvec(desc, pos, i);
                proof {
                    assert(line@ =~= rest.take(i - pos));
                    assert(lines.drop_first() =~= lines_of(rest.skip(i - pos + 1)));
                    assert(rest.skip(i - pos + 1) =~= desc@.skip(i + 1));
                }
                match process_line(&line) {
                    Some(p) => {
                        let ghost old_ps = ps@;
                        ps.push(p);
                        proof {
                            assert(pairs_view(ps@) =~= pairs_view(old_ps) + seq![
                                (p.0@, p.1@),
                            ]);
                            assert(pairs_of(desc@) =~= pairs_view(ps@) + pairs_of_lines(
                                lines_of(desc@.skip(i + 1)),
                            ));
                        }
                    },
                    None => {
                        proof {
                            assert(pairs_of(desc@) =~= pairs_view(ps@) + pairs_of_lines(
                                lines_of(desc@.skip(i + 1)),
                            ));
                        }
                    },
                }
                pos = i + 1;
            },
            None => {
                proof {
                    crate::text::lemma_find_shift(desc@, nl@, pos as int, pos as int);
                    assert(find_from(rest, seq![10u8], 0) is None);
                    assert(lines == seq![rest]);
                }
                let line = subvec(desc, pos, desc.len());
                proof {
                    assert(line@ =~= rest);
                    assert(lines.drop_first() =~= Seq::<Seq<u8>>::empty());
                }
                match process_line(&line) {
                    Some(p) => {
                        let ghost old_ps = ps@;
                        ps.push(p);
                        proof {
                            assert(pairs_of_lines(Seq::<Seq<u8>>::empty())
                                =~= Seq::<(Seq<u8>, Seq<u8>)>::empty());
                            assert(pairs_view(ps@) =~= pairs_view(old_ps) + seq![
                                (p.0@, p.1@),
                            ]);
                            assert(pairs_of_lines(lines) =~= seq![(p.0@, p.1@)]);
                            assert(pairs_of(desc@) =~= pairs_view(ps@));
                        }
                    },
                    None => {
                        proof {
                            assert(pairs_of_lines(Seq::<Seq<u8>>::empty())
                                =~= Seq::<(Seq<u8>, Seq<u8>)>::empty());
                            assert(pairs_of_lines(lines) =~= Seq::<(Seq<u8>, Seq<u8>)>::empty());
                            assert(pairs_of(desc@) =~= pairs_view(ps@));
                        }
                    },
                }
                return ps;
            },
        }
    }
}

/// The value of the last pair carrying `key`, mirroring how repeated keys
/// overwrite earlier ones in a map built front to back.
pub open spec fn lookup_spec(ps: Seq<(Seq<u8>, Seq<u8>)>, key: Seq<u8>) -> Option<Seq<u8>>
    decreases ps.len(),
{
    if ps.len() == 0 {
        None
    } else if ps.last().0 == key {
        Some(ps.last().1)
    } else {
        lookup_spec(ps.drop_last(), key)
    }
}

/// Find the index of the last pair carrying `key`.
fn lookup(ps: &Vec<(Vec<u8>, Vec<u8>)>, key: &Vec<u8>) -> (r: Option<usize>)
    ensures
        match r {
            Option::Some(i) => i < ps@.len() && lookup_spec(pairs_view(ps@), key@) == Some(
                ps@[i as int].1@,
            ),
            Option::None => lookup_spec(pairs_view(ps@), key@) is None,
        },
{
    let mut i: usize = ps.len();
    proof {
        assert(pairs_view(ps@).take(i as int) =~= pairs_view(ps@));
    }
    while i > 0
        invariant
            i <= ps@.len(),
            lookup_spec(pairs_view(ps@), key@) == lookup_spec(
                pairs_view(ps@).take(i as int),
                key@,
            ),
        decreases i,
    {
        let ghost pv = pairs_view(ps@);
        proof {
            assert(pv.take(i as int).drop_last() =~= pv.take(i - 1));
            assert(pv.take(i as int).last() == pv[i - 1]);
        }
        if bytes_eq(&ps[i - 1].0, key) {
            return Some(i - 1);
        }
        i -= 1;
    }
    None
}

/// Assembly of one sighting from a description's key/value pairs: the six
/// required keys must be present; Date and Time joined by a space must
/// follow the timestamp grammar and name an instant of the deployment zone;
/// Approach, Departure, Duration and Maximum Elevation must each follow
/// their field grammar.
#[verifier::opaque]
pub open spec fn sighting_of_pairs(ps: Seq<(Seq<u8>, Seq<u8>)>) -> Result<
    SpecSighting,
    ParseError,
> {
    let date = lookup_spec(ps, "Date".spec_bytes());
    let time = lookup_spec(ps, "Time".spec_bytes());
    let appr = lookup_spec(ps, "Approach".spec_bytes());
    let dep = lookup_spec(ps, "Departure".spec_bytes());
    let dur = lookup_spec(ps, "Duration".spec_bytes());
    let maxe = lookup_spec(ps, "Maximum Elevation".spec_bytes());
    if date is None || time is None || appr is None || dep is None || dur is None
        || maxe is None {
        Err(ParseError::MissingField)
    } else {
        let dt_text = date->Some_0 + seq![32u8] + time->Some_0;
        match datetime_spec(dt_text) {
            Option::None => Err(ParseError::BadTimestamp),
            Option::Some(p) => match local_timestamp_of(
                p.year as int,
                p.month as int,
                p.day as int,
                p.hour24 as int,
                p.minute as int,
            ) {
                Option::None => Err(ParseError::BadTimestamp),
                Option::Some(ts) => match sky_spec(appr->Some_0) {
                    Option::None => Err(ParseError::BadSkyLocation),
                    Option::Some(ap) => match sky_spec(dep->Some_0) {
                        Option::None => Err(ParseError::BadSkyLocation),
                        Option::Some(dp) => match duration_spec(dur->Some_0) {
                            Option::None => Err(ParseError::BadDuration),
                            Option::Some(du) => match elevation_spec(maxe->Some_0) {
                                Option::None => Err(ParseError::BadElevation),
                                Option::Some(me) => Ok(
                                    SpecSighting {
                                        when: ts as int,
                                        approach: ap,
                                        departure: dp,
                                        duration: du,
                                        max_elevation: me,
                                    },
                                ),
                            },
                        },
                    },
                },
            },
        }
    }
}

/// Append a copy of `src` to `dst`.
fn push_all(dst: &mut Vec<u8>, src: &Vec<u8>)
    ensures
        final(dst)@ == old(dst)@ + src@,
{
    let mut i: usize = 0;
    while i < src.len()
        invariant
            i <= src@.len(),
            dst@ == old(dst)@ + src@.take(i as int),
        decreases src@.len() - i,
    {
        let ghost pre = dst@;
        dst.push(src[i]);
        proof {
            assert(pre.push(src@[i as int]) =~= old(dst)@ + src@.take(i as int + 1));
        }
        i += 1;
    }
    proof {
        assert(src@.take(src@.len() as int) =~= src@);
    }
}

/// Build one sighting from a description's key/value pairs.
pub fn map_to_sighting(ps: &Vec<(Vec<u8>, Vec<u8>)>) -> (r: Result<Sighting, ParseError>)
    ensures
        match r {
            Result::Ok(s) => sighting_of_pairs(pairs_view(ps@)) == Ok::<
                SpecSighting,
                ParseError,
            >(sighting_abs(s)),
            Result::Err(e) => sighting_of_pairs(pairs_view(ps@)) == Err::<
                SpecSighting,
                ParseError,
            >(e),
        },
{
    proof {
        reveal(sighting_of_pairs);
    }
    let k_date = "Date".as_bytes_vec();
    let k_time = "Time".as_bytes_vec();
    let k_appr = "Approach".as_bytes_vec();
    let k_dep = "Departure".as_bytes_vec();
    let k_dur = "Duration".as_bytes_vec();
    let k_maxe = "Maximum Elevation".as_bytes_vec();
    let di = match lookup(ps, &k_date) {
        Some(i) => i,
        None => return Err(ParseError::MissingField),
    };
    let ti = match lookup(ps, &k_time) {
        Some(i) => i,
        None => return Err(ParseError::MissingField),
    };
    let ai = match lookup(ps, &k_appr) {
        Some(i) => i,
        None => return Err(ParseError::MissingField),
    };
    let pi = match lookup(ps, &k_dep) {
        Some(i) => i,
        None => return Err(ParseError::MissingField),
    };
    let ui = match lookup(ps, &k_dur) {
        Some(i) => i,
        None => return Err(ParseError::MissingField),
    };
    let mi = match lookup(ps, &k_maxe) {
        Some(i) => i,
        None => return Err(ParseError::MissingField),
    };
    let mut dt: Vec<u8> = Vec::new();
    push_all(&mut dt, &ps[di].1);
    dt.push(32);
    push_all(&mut dt, &ps[ti].1);
    proof {
        assert(dt@ =~= ps@[di as int].1@ + seq![32u8] + ps@[ti as int].1@);
    }
    let parts = match parse_datetime(&dt) {
        Some(p) => p,
        None => return Err(ParseError::BadTimestamp),
    };
    let ts = match local_timestamp(parts.year, parts.month, parts.day, parts.hour24,
        parts.minute) {
        Some(t) => t,
        None => return Err(ParseError::BadTimestamp),
    };
    let approach = match parse_skylocation(&ps[ai].1) {
        Some(sk) => sk,
        None => return Err(ParseError::BadSkyLocation),
    };
    let departure = match parse_skylocation(&ps[pi].1) {
        Some(sk) => sk,
        None => return Err(ParseError::BadSkyLocation),
    };
    let duration = match parse_duration(&ps[ui].1) {
        Some(d) => d,
        None => return Err(ParseError::BadDuration),
    };
    let max_elevation = match parse_elevation(&ps[mi].1) {
        Some(v) => v,
        None => return Err(ParseError::BadElevation),
    };
    Ok(Sighting { datetime: ts, approach, departure, duration, max_elevation })
}

/// One item of the feed document, reduced to its title and description.
pub struct FeedEntry {
    pub title: Option<Vec<u8>>,
    pub description: Option<Vec<u8>>,
}

/// Name of the outside result: the titles and descriptions, in document
/// order, of the items of the feed document encoded by `raw`; `None` when
/// the bytes are not a well-formed feed document.
pub uninterp spec fn feed_entries(raw: Seq<u8>) -> Option<
    Seq<(Option<Seq<u8>>, Option<Seq<u8>>)>,
>;

/// The title/description pair an entry stands for.
pub open spec fn entry_pair(e: FeedEntry) -> (Option<Seq<u8>>, Option<Seq<u8>>) {
    (
        match e.title {
            Option::Some(t) => Some(t@),
            Option::None => None,
        },
        match e.description {
            Option::Some(d) => Some(d@),
            Option::None => None,
        },
    )
}

/// The pairs a whole entry list stands for.
pub open spec fn entries_pairs(v: Seq<FeedEntry>) -> Seq<(Option<Seq<u8>>, Option<Seq<u8>>)> {
    v.map_values(|e: FeedEntry| entry_pair(e))
}

/// Relies on rss::Channel::read_from: decodes the document and hands back
/// each item's title and description in order; the result depends on the
/// bytes alone.
#[verifier::external_body]
fn read_channel(raw: &Vec<u8>) -> (r: Option<Vec<FeedEntry>>)
    ensures
        match r {
            Option::Some(v) => feed_entries(raw@) == Some(entries_pairs(v@)),
            Option::None => feed_entries(raw@) is None,
        },
{
    let channel = match rss::Channel::read_from(raw.as_slice()) {
        Ok(c) => c,
        Err(_) => return None,
    };
    let mut out = Vec::new();
    for it in channel.items() {
        out.push(FeedEntry {
            title: it.title().map(|s| s.as_bytes().to_vec()),
            description: it.description().map(|s| s.as_bytes().to_vec()),
        });
    }
    Some(out)
}

/// The title marker of a qualifying entry.
pub open spec fn marker() -> Seq<u8> {
    "ISS Sighting".spec_bytes()
}

/// An entry qualifies when it has a title containing the marker.
pub open spec fn qualifies(e: (Option<Seq<u8>>, Option<Seq<u8>>)) -> bool {
    e.0 is Some && contains_seq(e.0->Some_0, marker())
}

/// An entry's description text; an absent description reads as empty.
pub open spec fn desc_of(e: (Option<Seq<u8>>, Option<Seq<u8>>)) -> Seq<u8> {
    match e.1 {
        Option::Some(d) => d,
        Option::None => Seq::empty(),
    }
}

/// The sightings of a list of entries, in feed order: non-qualifying
/// entries are dropped; the first failing qualifying entry decides the
/// error.
pub open spec fn sightings_of_entries(es: Seq<(Option<Seq<u8>>, Option<Seq<u8>>)>) -> Result<
    Seq<SpecSighting>,
    ParseError,
>
    decreases es.len(),
{
    if es.len() == 0 {
        Ok(Seq::empty())
    } else {
        let rest = sightings_of_entries(es.drop_first());
        if !qualifies(es[0]) {
            rest
        } else {
            match sighting_of_pairs(pairs_of(desc_of(es[0]))) {
                Result::Err(e) => Err(e),
                Result::Ok(s) => match rest {
                    Result::Err(e2) => Err(e2),
                    Result::Ok(ss) => Ok(seq![s] + ss),
                },
            }
        }
    }
}

/// The sightings of a whole feed document, before sorting.
pub open spec fn sightings_of_feed(raw: Seq<u8>) -> Result<Seq<SpecSighting>, ParseError> {
    match feed_entries(raw) {
        Option::None => Err(ParseError::BadDocument),
        Option::Some(es) => sightings_of_entries(es),
    }
}

/// No occurrence exists at or after a failed search's start.
proof fn lemma_find_none(h: Seq<u8>, n: Seq<u8>, j: int)
    requires
        0 <= j,
        find_from(h, n, j) is None,
    ensures
        forall|i: int| j <= i ==> !is_match_at(h, n, i),
    decreases h.len() - j,
{
    if j + n.len() <= h.len() {
        lemma_find_none(h, n, j + 1);
    }
}

/// Check whether a byte string contains the needle anywhere.
fn contains_bytes(h: &Vec<u8>, n: &Vec<u8>) -> (b: bool)
    ensures
        b == contains_seq(h@, n@),
{
    match find_bytes_from(h, n, 0) {
        Some(i) => {
            proof {
                crate::text::lemma_find_from_bounds(h@, n@, 0);
                if n@.len() == 0 {
                    assert(h@.subrange(i as int, i as int) =~= n@);
                }
                assert(is_match_at(h@, n@, i as int));
            }
            true
        },
        None => {
            proof {
                lemma_find_none(h@, n@, 0);
                assert forall|i: int| !is_match_at(h@, n@, i) by {
                    if i < 0 {
                    } else {
                        assert(!is_match_at(h@, n@, i));
                    }
                }
            }
            false
        },
    }
}

/// Whether an entry qualifies.
fn entry_qualifies(e: &FeedEntry) -> (b: bool)
    ensures
        b == qualifies(entry_pair(*e)),
{
    let m = "ISS Sighting".as_bytes_vec();
    match &e.title {
        Some(t) => contains_bytes(t, &m),
        None => false,
    }
}

/// The predicate selecting sightings at one instant.
pub open spec fn when_pred(t: int) -> spec_fn(SpecSighting) -> bool {
    |x: SpecSighting| x.when == t
}

/// The subsequence of sightings at one instant, in order.
pub open spec fn with_when(s: Seq<SpecSighting>, t: int) -> Seq<SpecSighting> {
    s.filter(when_pred(t))
}

/// Sightings in non-decreasing time order.
pub open spec fn sorted_by_when(s: Seq<SpecSighting>) -> bool {
    forall|i: int, j: int| 0 <= i < j < s.len() ==> s[i].when <= s[j].when
}

/// A sequence without sightings at `t` filters to nothing at `t`.
proof fn lemma_filter_none_when(s: Seq<SpecSighting>, t: int)
    requires
        forall|m: int| 0 <= m < s.len() ==> s[m].when != t,
    ensures
        with_when(s, t) == Seq::<SpecSighting>::empty(),
    decreases s.len(),
{
    reveal(Seq::filter);
    if s.len() > 0 {
        lemma_filter_none_when(s.drop_last(), t);
        assert(!(when_pred(t)(s.last())));
    }
}

/// Moving an element left over strictly later elements leaves every
/// instant's subsequence unchanged.
proof fn lemma_stable_move(s: Seq<SpecSighting>, i: int, j: int)
    requires
        0 <= j <= i < s.len(),
        forall|m: int| j <= m < i ==> s[m].when > s[i].when,
    ensures
        forall|t: int| with_when(s.remove(i).insert(j, s[i]), t) == with_when(s, t),
{
    let x = s[i];
    let a = s.take(j);
    let b = s.subrange(j, i);
    let c = s.skip(i + 1);
    assert(s =~= a + b + seq![x] + c);
    assert(s.remove(i).insert(j, x) =~= a + seq![x] + b + c);
    assert forall|t: int| with_when(s.remove(i).insert(j, x), t) == with_when(s, t) by {
        let pred = when_pred(t);
        let fa = a.filter(pred);
        let fb = b.filter(pred);
        let fx = seq![x].filter(pred);
        let fc = c.filter(pred);
        Seq::filter_distributes_over_add(a, b, pred);
        Seq::filter_distributes_over_add(a + b, seq![x], pred);
        Seq::filter_distributes_over_add(a + b + seq![x], c, pred);
        Seq::filter_distributes_over_add(a, seq![x], pred);
        Seq::filter_distributes_over_add(a + seq![x], b, pred);
        Seq::filter_distributes_over_add(a + seq![x] + b, c, pred);
        assert((a + b + seq![x] + c).filter(pred) == ((fa + fb) + fx) + fc);
        assert((a + seq![x] + b + c).filter(pred) == ((fa + fx) + fb) + fc);
        if x.when == t {
            assert forall|m: int| 0 <= m < b.len() implies b[m].when != t by {
                assert(b[m] == s[j + m]);
            }
            lemma_filter_none_when(b, t);
            assert(((fa + fb) + fx) + fc =~= ((fa + fx) + fb) + fc);
        } else {
            assert(fx =~= Seq::<SpecSighting>::empty()) by {
                reveal(Seq::filter);
                assert(seq![x].drop_last() =~= Seq::<SpecSighting>::empty());
                assert(Seq::<SpecSighting>::empty().filter(pred)
                    == Seq::<SpecSighting>::empty());
                assert(seq![x].last() == x);
                assert(!pred(x));
            }
            assert(((fa + fb) + fx) + fc =~= ((fa + fx) + fb) + fc);
        }
    }
}

/// Stable insertion sort of sightings by their instant.
#[verifier::rlimit(100)]
fn sort_sightings(v: &mut Vec<Sighting>)
    ensures
        final(v)@.len() == old(v)@.len(),
        sorted_by_when(abs_seq(final(v)@)),
        forall|t: int| with_when(abs_seq(final(v)@), t) == with_when(abs_seq(old(v)@), t),
{
    if v.len() <= 1 {
        return ;
    }
    let mut i: usize = 1;
    while i < v.len()
        invariant
            1 <= i <= v@.len(),
            v@.len() == old(v)@.len(),
            sorted_by_when(abs_seq(v@).take(i as int)),
            forall|t: int| with_when(abs_seq(v@), t) == with_when(abs_seq(old(v)@), t),
        decreases v@.len() - i,
    {
        let ghost pre = v@;
        let ghost sa = abs_seq(pre);
        let x = v.remove(i);
        let mut j: usize = i;
        while j > 0 && v[j - 1].datetime > x.datetime
            invariant
                j <= i,
                i < pre.len(),
                v@ == pre.remove(i as int),
                forall|m: int| j <= m < i ==> v@[m].datetime > x.datetime,
            decreases j,
        {
            j -= 1;
        }
        v.insert(j, x);
        proof {
            assert(v@ =~= pre.remove(i as int).insert(j as int, x));
            assert(abs_seq(v@) =~= sa.remove(i as int).insert(j as int, sighting_abs(x)));
            assert(sa[i as int] == sighting_abs(x));
            assert forall|m: int| j <= m < i implies sa[m].when > sa[i as int].when by {
                assert(pre.remove(i as int)[m] == pre[m]);
            }
            lemma_stable_move(sa, i as int, j as int);
            assert forall|t: int| with_when(abs_seq(v@), t) == with_when(
                abs_seq(old(v)@),
                t,
            ) by {
                assert(with_when(abs_seq(v@), t) == with_when(sa, t));
            }
            let post = abs_seq(v@);
            assert forall|p: int, q: int| 0 <= p < q < i + 1 implies post[p].when
                <= post[q].when by {
                assert(forall|m: int| 0 <= m < j ==> post[m] == sa[m]);
                assert(post[j as int] == sighting_abs(x));
                assert(forall|m: int| j < m <= i ==> post[m] == sa[m - 1]);
                if j > 0 {
                    assert(pre.remove(i as int)[j - 1] == pre[j - 1]);
                    assert(sa[j - 1].when <= sighting_abs(x).when);
                }
            }
            assert(sorted_by_when(abs_seq(v@).take(i + 1)));
        }
        i += 1;
    }
    proof {
        assert(abs_seq(v@).take(v@.len() as int) =~= abs_seq(v@));
    }
}

/// Parse a raw feed document into its sightings, sorted by time; ties keep
/// their feed order. Exactly the documents the pipeline rejects are
/// rejected, with the same error.
#[verifier::rlimit(100)]
pub fn parse(raw: &Vec<u8>) -> (r: Result<Vec<Sighting>, ParseError>)
    ensures
        match r {
            Result::Ok(v) => sightings_of_feed(raw@) matches Ok(ss) && abs_seq(v@).len()
                == ss.len() && sorted_by_when(abs_seq(v@)) && forall|t: int|
                with_when(abs_seq(v@), t) == with_when(ss, t),
            Result::Err(e) => sightings_of_feed(raw@) == Err::<Seq<SpecSighting>, ParseError>(
                e,
            ),
        },
{
    let mut entries = match read_channel(raw) {
        Some(v) => v,
        None => return Err(ParseError::BadDocument),
    };
    let ghost es0 = entries_pairs(entries@);
    let mut out: Vec<Sighting> = Vec::new();
    proof {
        assert(abs_seq(out@) =~= Seq::<SpecSighting>::empty());
    }
    while entries.len() > 0
        invariant
            match sightings_of_entries(entries_pairs(entries@)) {
                Result::Ok(ss) => sightings_of_entries(es0) == Ok::<
                    Seq<SpecSighting>,
                    ParseError,
                >(abs_seq(out@) + ss),
                Result::Err(e) => sightings_of_entries(es0) == Err::<
                    Seq<SpecSighting>,
                    ParseError,
                >(e),
            },
            sightings_of_feed(raw@) == sightings_of_entries(es0),
        decreases entries@.len(),
    {
        let ghost es = entries_pairs(entries@);
        let ghost old_out = out@;
        let e = entries.remove(0);
        proof {
            assert(entries_pairs(entries@) =~= es.drop_first());
            assert(es[0] == entry_pair(e));
        }
        match process_entry(e, &mut out) {
            Some(err) => {
                proof {
                    lemma_entries_step(es);
                }
                return Err(err);
            },
            None => {
                proof {
                    lemma_entries_step(es);
                    if qualifies(es[0]) {
                        match sightings_of_entries(es.drop_first()) {
                            Result::Ok(ss) => {
                                let sp = sighting_of_pairs(
                                    pairs_of(desc_of(es[0])),
                                )->Ok_0;
                                assert(abs_seq(old_out) + (seq![sp] + ss) =~= abs_seq(out@)
                                    + ss);
                            },
                            Result::Err(e2) => {},
                        }
                    }
                }
            },
        }
    }
    proof {
        assert(entries_pairs(entries@) =~= Seq::<(Option<Seq<u8>>, Option<Seq<u8>>)>::empty());
        assert(sightings_of_entries(entries_pairs(entries@)) == Ok::<
            Seq<SpecSighting>,
            ParseError,
        >(Seq::empty()));
        assert(abs_seq(out@) + Seq::<SpecSighting>::empty() =~= abs_seq(out@));
    }
    sort_sightings(&mut out);
    Ok(out)
}

/// One unfolding of `sightings_of_entries` on a nonempty list.
proof fn lemma_entries_step(es: Seq<(Option<Seq<u8>>, Option<Seq<u8>>)>)
    requires
        es.len() > 0,
    ensures
        sightings_of_entries(es) == ({
            let rest = sightings_of_entries(es.drop_first());
            if !qualifies(es[0]) {
                rest
            } else {
                match sighting_of_pairs(pairs_of(desc_of(es[0]))) {
                    Result::Err(e) => Err(e),
                    Result::Ok(s) => match rest {
                        Result::Err(e2) => Err(e2),
                        Result::Ok(ss) => Ok(seq![s] + ss),
                    },
                }
            }
        }),
{
}

/// Handle one feed entry: a qualifying entry's sighting is appended to
/// `out`, a failing one hands back its error, a non-qualifying one is
/// dropped.
#[verifier::rlimit(100)]
fn process_entry(e: FeedEntry, out: &mut Vec<Sighting>) -> (r: Option<ParseError>)
    ensures
        ({
            let ep = entry_pair(e);
            match r {
                Option::Some(err) => qualifies(ep) && sighting_of_pairs(pairs_of(desc_of(ep)))
                    == Err::<SpecSighting, ParseError>(err) && final(out)@ == old(out)@,
                Option::None => if qualifies(ep) {
                    sighting_of_pairs(pairs_of(desc_of(ep))) matches Ok(sp) && abs_seq(
                        final(out)@,
                    ) == abs_seq(old(out)@) + seq![sp]
                } else {
                    final(out)@ == old(out)@
                },
            }
        }),
{
    let ghost ep = entry_pair(e);
    if !entry_qualifies(&e) {
        return None;
    }
    let pairs = match &e.description {
        Some(d) => description_pairs(d),
        None => Vec::new(),
    };
    proof {
        match e.description {
            Option::Some(d) => {
                assert(pairs_view(pairs@) == pairs_of(desc_of(ep)));
            },
            Option::None => {
                reveal_strlit(": ");
                broadcast use vstd::string::is_ascii_spec_bytes;

                assert(vstd::string::is_ascii(": "));
                assert(sep_pat().len() == 2);
                assert(pairs_view(pairs@) =~= Seq::<(Seq<u8>, Seq<u8>)>::empty());
                assert(lines_of(Seq::<u8>::empty()) =~= seq![Seq::<u8>::empty()]);
                assert(strip_tabs(Seq::<u8>::empty()) == Seq::<u8>::empty());
                assert(clean_line(Seq::<u8>::empty()) == Seq::<u8>::empty());
                assert(kv_of(Seq::<u8>::empty()) is None);
                assert(pairs_of_lines(Seq::<Seq<u8>>::empty())
                    =~= Seq::<(Seq<u8>, Seq<u8>)>::empty());
                assert(seq![Seq::<u8>::empty()].drop_first() =~= Seq::<Seq<u8>>::empty());
                assert(seq![Seq::<u8>::empty()][0] == Seq::<u8>::empty());
                assert(pairs_of_lines(seq![Seq::<u8>::empty()])
                    =~= Seq::<(Seq<u8>, Seq<u8>)>::empty());
                assert(pairs_of(desc_of(ep)) =~= pairs_view(pairs@));
            },
        }
    }
    match map_to_sighting(&pairs) {
        Err(err) => Some(err),
        Ok(s) => {
            let ghost old_out = out@;
            out.push(s);
            proof {
                assert(abs_seq(out@) =~= abs_seq(old_out) + seq![sighting_abs(s)]);
            }
            None
        },
    }
}

/// All six keys a description must carry.
pub open spec fn required_keys_present(ps: Seq<(Seq<u8>, Seq<u8>)>) -> bool {
    &&& lookup_spec(ps, "Date".spec_bytes()) is Some
    &&& lookup_spec(ps, "Time".spec_bytes()) is Some
    &&& lookup_spec(ps, "Approach".spec_bytes()) is Some
    &&& lookup_spec(ps, "Departure".spec_bytes()) is Some
    &&& lookup_spec(ps, "Duration".spec_bytes()) is Some
    &&& lookup_spec(ps, "Maximum Elevation".spec_bytes()) is Some
}

/// The Date and Time values joined by a single space.
pub open spec fn datetime_text_of(ps: Seq<(Seq<u8>, Seq<u8>)>) -> Seq<u8> {
    lookup_spec(ps, "Date".spec_bytes())->Some_0 + seq![32u8] + lookup_spec(
        ps,
        "Time".spec_bytes(),
    )->Some_0
}

/// The description's timestamp parses and names an instant of the zone.
pub open spec fn timestamp_ok(ps: Seq<(Seq<u8>, Seq<u8>)>) -> bool {
    datetime_spec(datetime_text_of(ps)) matches Some(p) && local_timestamp_of(
        p.year as int,
        p.month as int,
        p.day as int,
        p.hour24 as int,
        p.minute as int,
    ) is Some
}

/// Elevation-range law, approach and departure fields: when the rest of the
/// description is in order but the Approach value's degrees read beyond 90,
/// assembly fails with exactly `BadSkyLocation` — the field's own error
/// kind, never another.
pub proof fn lemma_sky_elevation_out_of_range(ps: Seq<(Seq<u8>, Seq<u8>)>)
    requires
        required_keys_present(ps),
        timestamp_ok(ps),
        ({
            let av = lookup_spec(ps, "Approach".spec_bytes())->Some_0;
            digits_val(av.take(digit_run_len(av))) > 90
        }),
    ensures
        sighting_of_pairs(ps) == Err::<SpecSighting, ParseError>(ParseError::BadSkyLocation),
{
    reveal(sighting_of_pairs);
    let av = lookup_spec(ps, "Approach".spec_bytes())->Some_0;
    assert(sky_spec(av) is None);
}

/// Elevation-range law, maximum-elevation field: when every earlier field
/// is in order but the Maximum Elevation value reads as an integer outside
/// 0..=90, assembly fails with exactly `BadElevation`.
pub proof fn lemma_max_elevation_out_of_range(ps: Seq<(Seq<u8>, Seq<u8>)>)
    requires
        required_keys_present(ps),
        timestamp_ok(ps),
        sky_spec(lookup_spec(ps, "Approach".spec_bytes())->Some_0) is Some,
        sky_spec(lookup_spec(ps, "Departure".spec_bytes())->Some_0) is Some,
        duration_spec(lookup_spec(ps, "Duration".spec_bytes())->Some_0) is Some,
        ({
            let mv = lookup_spec(ps, "Maximum Elevation".spec_bytes())->Some_0;
            int_val_spec(strip_suffix_rec(mv, degree_pat())) matches Some(v) && !(0 <= v <= 90)
        }),
    ensures
        sighting_of_pairs(ps) == Err::<SpecSighting, ParseError>(ParseError::BadElevation),
{
    reveal(sighting_of_pairs);
    let mv = lookup_spec(ps, "Maximum Elevation".spec_bytes())->Some_0;
    assert(elevation_spec(mv) is None);
}

} // verus!
