use vstd::prelude::*;

use crate::text::{
    all_digits, is_digit, lemma_parse_signed_decimal, lemma_split_append_piece, lemma_split_append_plain,
    lemma_zero_pad, decimal, repeat, zero_pad,
    chars_of, parse_i32, parse_i32_chars, pieces, push_signed_padded, push_str, signed_decimal, split,
    split_chars, string_of,
};

verus! {

/// The numbers and markers of a game or patch version, as plain values.
pub ghost struct VersionModel {
    pub year: i32,
    pub month: i32,
    pub day: i32,
    pub part: i32,
    pub revision: i32,
    pub is_historic: bool,
    pub section: Option<Seq<char>>,
}

/// Why a version string was refused.
#[derive(Debug, Clone, Copy, PartialEq, Eq, Structural)]
pub enum VersionError {
    /// The dotted part does not have exactly five fields.
    WrongPartCount,
    /// A field is not a 32-bit integer.
    InvalidNumber,
}

pub open spec fn is_lower(c: char) -> bool {
    'a' <= c && c <= 'z'
}

/// How many lowercase letters end `s`.
pub open spec fn lower_suffix_len(s: Seq<char>) -> nat
    decreases s.len(),
{
    if s.len() > 0 && is_lower(s.last()) {
        1 + lower_suffix_len(s.drop_last())
    } else {
        0
    }
}

/// `s` without a leading `H` or `D` marker.
pub open spec fn strip_marker(s: Seq<char>) -> Seq<char> {
    if s.len() > 0 && (s[0] == 'H' || s[0] == 'D') {
        s.drop_first()
    } else {
        s
    }
}

pub open spec fn version_body(s: Seq<char>) -> Seq<char> {
    let rest = strip_marker(s);
    rest.subrange(0, rest.len() - lower_suffix_len(rest))
}

pub open spec fn version_section(s: Seq<char>) -> Option<Seq<char>> {
    let rest = strip_marker(s);
    let k = lower_suffix_len(rest);
    if k == 0 {
        None
    } else {
        Some(rest.subrange(rest.len() - k, rest.len() as int))
    }
}

/// The meaning of a version string: an optional `H` (historic) or `D` marker, five
/// dot-separated integers, then an optional run of lowercase letters naming a section.
pub open spec fn parse_version(s: Seq<char>) -> Option<VersionModel> {
    let parts = split(version_body(s), '.');
    if parts.len() != 5 {
        None
    } else if parse_i32(parts[0]) is None || parse_i32(parts[1]) is None
        || parse_i32(parts[2]) is None || parse_i32(parts[3]) is None
        || parse_i32(parts[4]) is None {
        None
    } else {
        Some(VersionModel {
            year: parse_i32(parts[0])->0,
            month: parse_i32(parts[1])->0,
            day: parse_i32(parts[2])->0,
            part: parse_i32(parts[3])->0,
            revision: parse_i32(parts[4])->0,
            is_historic: s.len() > 0 && s[0] == 'H',
            section: version_section(s),
        })
    }
}

/// The error a refused version string gets.
pub open spec fn version_error(s: Seq<char>) -> VersionError {
    if split(version_body(s), '.').len() != 5 {
        VersionError::WrongPartCount
    } else {
        VersionError::InvalidNumber
    }
}

/// The five numbers as `{:04}.{:02}.{:02}.{:04}.{:04}` prints them.
pub open spec fn numbers_text(m: VersionModel) -> Seq<char> {
    signed_decimal(m.year as int, 4) + seq!['.'] + signed_decimal(m.month as int, 2) + seq!['.']
        + signed_decimal(m.day as int, 2) + seq!['.'] + signed_decimal(m.part as int, 4)
        + seq!['.'] + signed_decimal(m.revision as int, 4)
}

pub open spec fn section_text(m: VersionModel) -> Seq<char> {
    match m.section {
        Some(s) => s,
        None => Seq::<char>::empty(),
    }
}

/// How a version prints: `H` for a historic one, otherwise `D` when `marked`, then the
/// numbers and the section.
pub open spec fn version_text(m: VersionModel, marked: bool) -> Seq<char> {
    let prefix = if m.is_historic {
        seq!['H']
    } else if marked {
        seq!['D']
    } else {
        Seq::<char>::empty()
    };
    prefix + numbers_text(m) + section_text(m)
}

/// A section that prints and parses back unchanged: absent, or a run of lowercase letters.
pub open spec fn section_wf(m: VersionModel) -> bool {
    match m.section {
        Some(s) => s.len() > 0 && forall|i: int| 0 <= i < s.len() ==> is_lower(#[trigger] s[i]),
        None => true,
    }
}

/// A version as FFXIV numbers its releases.
#[derive(Debug, Clone, Eq, Hash)]
pub struct Version {
    pub year: i32,
    pub month: i32,
    pub day: i32,
    pub part: i32,
    pub revision: i32,
    pub is_historic: bool,
    pub section: Option<String>,
}

impl View for Version {
    type V = VersionModel;

    open spec fn view(&self) -> VersionModel {
        VersionModel {
            year: self.year,
            month: self.month,
            day: self.day,
            part: self.part,
            revision: self.revision,
            is_historic: self.is_historic,
            section: match self.section {
                Some(s) => Some(s@),
                None => None,
            },
        }
    }
}

fn is_lower_char(c: char) -> (b: bool)
    ensures
        b == is_lower(c),
{
    'a' <= c && c <= 'z'
}

impl Version {
    pub open spec fn epoch_model() -> VersionModel {
        VersionModel {
            year: 2012,
            month: 1,
            day: 1,
            part: 0,
            revision: 0,
            is_historic: false,
            section: None,
        }
    }

    /// A copy of this version.
    pub fn duplicate(&self) -> (r: Self)
        ensures
            r@ == self@,
    {
        Version {
            year: self.year,
            month: self.month,
            day: self.day,
            part: self.part,
            revision: self.revision,
            is_historic: self.is_historic,
            section: match &self.section {
                Some(s) => Some(s.clone()),
                None => None,
            },
        }
    }
}

impl Version {
    /// Parse a version string such as `H2024.05.31.0000.0000ag`.
    pub fn new(version_string: &str) -> (r: Result<Version, VersionError>)
        ensures
            match r {
                Ok(v) => parse_version(version_string@) == Some(v@),
                Err(e) => parse_version(version_string@) is None && e == version_error(
                    version_string@,
                ),
            },
    {
        let cs = chars_of(version_string);
        let n = cs.len();
        let is_historic = n > 0 && cs[0] == 'H';
        let start: usize = if n > 0 && (cs[0] == 'H' || cs[0] == 'D') { 1 } else { 0 };
        let ghost rest = strip_marker(cs@);
        proof {
            assert(rest =~= cs@.subrange(start as int, n as int));
        }
        let mut end: usize = n;
        assert(rest.subrange(0, (n - start) as int) =~= rest);
        while end > start && is_lower_char(cs[end - 1])
            invariant
                n == cs.len(),
                start <= end <= n,
                rest == cs@.subrange(start as int, n as int),
                lower_suffix_len(rest) == (n - end) + lower_suffix_len(
                    rest.subrange(0, end - start),
                ),
            decreases end,
        {
            proof {
                let e = end - start;
                assert(rest.subrange(0, e).drop_last() =~= rest.subrange(0, e - 1));
                assert(rest.subrange(0, e).last() == cs@[end - 1]);
            }
            end = end - 1;
        }
        proof {
            let e = end - start;
            if e > 0 {
                assert(rest.subrange(0, e).last() == cs@[end - 1]);
            }
            assert(lower_suffix_len(rest) == n - end);
        }
        let body = vstd::slice::slice_subrange(cs.as_slice(), start, end);
        assert(body@ =~= version_body(cs@));
        let section = if end < n {
            let tail = vstd::slice::slice_subrange(cs.as_slice(), end, n);
            assert(tail@ =~= rest.subrange(rest.len() - lower_suffix_len(rest), rest.len() as int));
            Some(string_of(tail))
        } else {
            None
        };
        let parts = split_chars(body, '.');
        assert(pieces(parts@).len() == parts@.len());
        if parts.len() != 5 {
            return Err(VersionError::WrongPartCount);
        }
        proof {
            assert(pieces(parts@)[0] == parts@[0]@);
            assert(pieces(parts@)[1] == parts@[1]@);
            assert(pieces(parts@)[2] == parts@[2]@);
            assert(pieces(parts@)[3] == parts@[3]@);
            assert(pieces(parts@)[4] == parts@[4]@);
        }
        let year = match parse_i32_chars(parts[0].as_slice()) {
            Some(x) => x,
            None => return Err(VersionError::InvalidNumber),
        };
        let month = match parse_i32_chars(parts[1].as_slice()) {
            Some(x) => x,
            None => return Err(VersionError::InvalidNumber),
        };
        let day = match parse_i32_chars(parts[2].as_slice()) {
            Some(x) => x,
            None => return Err(VersionError::InvalidNumber),
        };
        let part = match parse_i32_chars(parts[3].as_slice()) {
            Some(x) => x,
            None => return Err(VersionError::InvalidNumber),
        };
        let revision = match parse_i32_chars(parts[4].as_slice()) {
            Some(x) => x,
            None => return Err(VersionError::InvalidNumber),
        };
        Ok(Version { year, month, day, part, revision, is_historic, section })
    }

    /// The first version, `2012.01.01.0000.0000`.
    pub fn epoch() -> (v: Version)
        ensures
            v@ == Version::epoch_model(),
    {
        Version { year: 2012, month: 1, day: 1, part: 0, revision: 0, is_historic: false, section: None }
    }

    /// Append the five numbers as they print.
    fn write_numbers(&self, out: &mut String)
        ensures
            final(out)@ == old(out)@ + numbers_text(self@),
    {
        let ghost m = self@;
        push_signed_padded(out, self.year, 4);
        out.push('.');
        let ghost a = old(out)@ + signed_decimal(m.year as int, 4) + seq!['.'];
        assert(out@ =~= a);
        push_signed_padded(out, self.month, 2);
        out.push('.');
        let ghost b = a + signed_decimal(m.month as int, 2) + seq!['.'];
        assert(out@ =~= b);
        push_signed_padded(out, self.day, 2);
        out.push('.');
        let ghost c = b + signed_decimal(m.day as int, 2) + seq!['.'];
        assert(out@ =~= c);
        push_signed_padded(out, self.part, 4);
        out.push('.');
        let ghost d = c + signed_decimal(m.part as int, 4) + seq!['.'];
        assert(out@ =~= d);
        push_signed_padded(out, self.revision, 4);
        assert(out@ =~= old(out)@ + numbers_text(m));
    }

    /// Append this version as it prints; a non-historic one gets a `D` when `marked`.
    pub fn write_text(&self, out: &mut String, marked: bool)
        ensures
            final(out)@ == old(out)@ + version_text(self@, marked),
    {
        let ghost m = self@;
        let ghost prefix = if m.is_historic {
            seq!['H']
        } else if marked {
            seq!['D']
        } else {
            Seq::<char>::empty()
        };
        if self.is_historic {
            out.push('H');
        } else if marked {
            out.push('D');
        }
        assert(out@ =~= old(out)@ + prefix);
        self.write_numbers(out);
        match &self.section {
            Some(s) => push_str(out, s.as_str()),
            None => {},
        }
        assert(out@ =~= old(out)@ + version_text(m, marked));
    }
}


pub proof fn lemma_signed_decimal_shape(x: i32, w: nat)
    ensures
        signed_decimal(x as int, w).len() >= 1,
        forall|i: int|
            0 <= i < signed_decimal(x as int, w).len() ==> (is_digit(
                #[trigger] signed_decimal(x as int, w)[i],
            ) || signed_decimal(x as int, w)[i] == '-'),
        is_digit(signed_decimal(x as int, w).last()),
        !signed_decimal(x as int, w).contains('.'),
{
    let s = signed_decimal(x as int, w);
    if x < 0 {
        let w1 = if w > 0 { (w - 1) as nat } else { 0 };
        lemma_zero_pad((-x) as nat, w1);
        let z = zero_pad(decimal((-x) as nat), w1);
        assert(s =~= seq!['-'] + z);
        assert forall|i: int| 0 <= i < s.len() implies (is_digit(#[trigger] s[i]) || s[i] == '-') by {
            if i > 0 {
                assert(s[i] == z[i - 1]);
            }
        }
        assert(s.last() == z.last());
    } else {
        lemma_zero_pad(x as nat, w);
    }
    if s.contains('.') {
        let i = choose|i: int| 0 <= i < s.len() && s[i] == '.';
        assert(is_digit(s[i]) || s[i] == '-');
    }
}

pub proof fn lemma_lower_suffix(a: Seq<char>, sec: Seq<char>)
    requires
        a.len() > 0,
        !is_lower(a.last()),
        forall|i: int| 0 <= i < sec.len() ==> is_lower(#[trigger] sec[i]),
    ensures
        lower_suffix_len(a + sec) == sec.len(),
    decreases sec.len(),
{
    if sec.len() == 0 {
        assert(a + sec =~= a);
    } else {
        assert((a + sec).drop_last() =~= a + sec.drop_last());
        assert((a + sec).last() == sec[sec.len() - 1]);
        lemma_lower_suffix(a, sec.drop_last());
    }
}

/// The five numbers split back into their printed fields.
pub proof fn lemma_numbers_split(m: VersionModel)
    ensures
        split(numbers_text(m), '.') == seq![
            signed_decimal(m.year as int, 4),
            signed_decimal(m.month as int, 2),
            signed_decimal(m.day as int, 2),
            signed_decimal(m.part as int, 4),
            signed_decimal(m.revision as int, 4),
        ],
{
    let y = signed_decimal(m.year as int, 4);
    let mo = signed_decimal(m.month as int, 2);
    let d = signed_decimal(m.day as int, 2);
    let p = signed_decimal(m.part as int, 4);
    let r = signed_decimal(m.revision as int, 4);
    lemma_signed_decimal_shape(m.year, 4);
    lemma_signed_decimal_shape(m.month, 2);
    lemma_signed_decimal_shape(m.day, 2);
    lemma_signed_decimal_shape(m.part, 4);
    lemma_signed_decimal_shape(m.revision, 4);
    let e = Seq::<char>::empty();
    lemma_split_append_plain(e, y, '.');
    assert(e + y =~= y);
    assert(split(e, '.') =~= seq![e]);
    assert(split(y, '.') =~= seq![y]);
    let a1 = y + seq!['.'] + mo;
    lemma_split_append_piece(y, mo, '.');
    assert(y.push('.') + mo =~= a1);
    let a2 = a1 + seq!['.'] + d;
    lemma_split_append_piece(a1, d, '.');
    assert(a1.push('.') + d =~= a2);
    let a3 = a2 + seq!['.'] + p;
    lemma_split_append_piece(a2, p, '.');
    assert(a2.push('.') + p =~= a3);
    let a4 = a3 + seq!['.'] + r;
    lemma_split_append_piece(a3, r, '.');
    assert(a3.push('.') + r =~= a4);
    assert(a4 =~= numbers_text(m));
    assert(split(numbers_text(m), '.') =~= seq![y, mo, d, p, r]);
}


proof fn lemma_lower_suffix_all(s: Seq<char>)
    ensures
        lower_suffix_len(s) <= s.len(),
        forall|i: int| s.len() - lower_suffix_len(s) <= i < s.len() ==> is_lower(#[trigger] s[i]),
    decreases s.len(),
{
    if s.len() > 0 && is_lower(s.last()) {
        lemma_lower_suffix_all(s.drop_last());
        assert forall|i: int| s.len() - lower_suffix_len(s) <= i < s.len() implies is_lower(#[trigger] s[i]) by {
            if i < s.len() - 1 {
                assert(s[i] == s.drop_last()[i]);
            }
        }
    }
}

/// Every version a string parses to has a section that prints and parses back.
pub proof fn lemma_parsed_section_wf(s: Seq<char>)
    requires
        parse_version(s) is Some,
    ensures
        section_wf(parse_version(s)->0),
{
    let rest = strip_marker(s);
    lemma_lower_suffix_all(rest);
    let k = lower_suffix_len(rest);
    if k > 0 {
        let sec = rest.subrange(rest.len() - k, rest.len() as int);
        assert forall|i: int| 0 <= i < sec.len() implies is_lower(#[trigger] sec[i]) by {
            assert(sec[i] == rest[rest.len() - k + i]);
        }
    }
}

/// Every parsed version prints as a string that parses back to it, marked or not.
pub proof fn lemma_parsed_version_reprints(s: Seq<char>, marked: bool)
    requires
        parse_version(s) is Some,
    ensures
        parse_version(version_text(parse_version(s)->0, marked)) == parse_version(s),
{
    lemma_parsed_section_wf(s);
    lemma_version_text_parses(parse_version(s)->0, marked);
}

/// A version prints as a string that parses back to it.
#[verifier::rlimit(60)]
#[verifier::spinoff_prover]
pub proof fn lemma_version_text_parses(m: VersionModel, marked: bool)
    requires
        section_wf(m),
    ensures
        parse_version(version_text(m, marked)) == Some(m),
{
    let n = numbers_text(m);
    let sec = section_text(m);
    let text = version_text(m, marked);
    let y = signed_decimal(m.year as int, 4);
    let r = signed_decimal(m.revision as int, 4);
    lemma_signed_decimal_shape(m.year, 4);
    lemma_signed_decimal_shape(m.revision, 4);
    lemma_numbers_split(m);
    assert(n[0] == y[0]);
    assert(n.last() == r.last());
    assert(forall|i: int| 0 <= i < sec.len() ==> is_lower(#[trigger] sec[i]));
    let rest = n + sec;
    if m.is_historic {
        assert(text =~= seq!['H'] + rest);
        assert(text.drop_first() =~= rest);
    } else if marked {
        assert(text =~= seq!['D'] + rest);
        assert(text.drop_first() =~= rest);
    } else {
        assert(text =~= rest);
        assert(text[0] == y[0]);
        assert(is_digit(y[0]) || y[0] == '-');
    }
    assert(strip_marker(text) =~= rest);
    lemma_lower_suffix(n, sec);
    assert(version_body(text) =~= n);
    if sec.len() > 0 {
        assert(rest.subrange(n.len() as int, rest.len() as int) =~= sec);
    }
    assert(version_section(text) == m.section);
    let parts = split(version_body(text), '.');
    assert(parts == split(n, '.'));
    lemma_parse_signed_decimal(m.year, 4);
    lemma_parse_signed_decimal(m.month, 2);
    lemma_parse_signed_decimal(m.day, 2);
    lemma_parse_signed_decimal(m.part, 4);
    lemma_parse_signed_decimal(m.revision, 4);
}


/// A game version: prints without a marker unless historic.
#[derive(Debug, Clone, Eq, Hash)]
pub struct GameVersion(pub Version);

/// A patch version: prints with `D` unless historic.
#[derive(Debug, Clone, Eq, Hash)]
pub struct PatchVersion(pub Version);

impl View for GameVersion {
    type V = VersionModel;

    open spec fn view(&self) -> VersionModel {
        self.0@
    }
}

impl View for PatchVersion {
    type V = VersionModel;

    open spec fn view(&self) -> VersionModel {
        self.0@
    }
}

impl GameVersion {
    pub fn new(version_string: &str) -> (r: Result<GameVersion, VersionError>)
        ensures
            match r {
                Ok(v) => parse_version(version_string@) == Some(v@),
                Err(e) => parse_version(version_string@) is None && e == version_error(
                    version_string@,
                ),
            },
    {
        match Version::new(version_string) {
            Ok(v) => Ok(GameVersion(v)),
            Err(e) => Err(e),
        }
    }

    pub fn epoch() -> (v: GameVersion)
        ensures
            v@ == Version::epoch_model(),
    {
        GameVersion(Version::epoch())
    }

    /// The version as it prints, e.g. `2024.05.31.0000.0000` or `H2017.06.06.0000.0001a`.
    pub fn to_string(&self) -> (s: String)
        ensures
            s@ == version_text(self@, false),
    {
        let mut out = String::new();
        self.0.write_text(&mut out, false);
        assert(out@ =~= version_text(self@, false));
        out
    }

    pub fn duplicate(&self) -> (r: GameVersion)
        ensures
            r@ == self@,
    {
        GameVersion(self.0.duplicate())
    }
}

impl PatchVersion {
    pub fn new(version_string: &str) -> (r: Result<PatchVersion, VersionError>)
        ensures
            match r {
                Ok(v) => parse_version(version_string@) == Some(v@),
                Err(e) => parse_version(version_string@) is None && e == version_error(
                    version_string@,
                ),
            },
    {
        match Version::new(version_string) {
            Ok(v) => Ok(PatchVersion(v)),
            Err(e) => Err(e),
        }
    }

    pub fn epoch() -> (v: PatchVersion)
        ensures
            v@ == Version::epoch_model(),
    {
        PatchVersion(Version::epoch())
    }

    /// The version as it prints, e.g. `D2024.05.31.0000.0000` or `H2017.06.06.0000.0001a`.
    pub fn to_string(&self) -> (s: String)
        ensures
            s@ == version_text(self@, true),
    {
        let mut out = String::new();
        self.0.write_text(&mut out, true);
        assert(out@ =~= version_text(self@, true));
        out
    }

    pub fn duplicate(&self) -> (r: PatchVersion)
        ensures
            r@ == self@,
    {
        PatchVersion(self.0.duplicate())
    }
}

} // verus!
