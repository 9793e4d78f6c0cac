//! The command line's effect-spec grammar and argument enumerations.
//!
//! An effect spec is a compact string whose fields are separated by `:`:
//!
//! - `biquad:<type>:<freq>[:q[:gain_db]]`, `type` one of `lowpass`,
//!   `highpass`, `bandpass`, `notch`, `allpass`, `peaking`, `lowshelf`,
//!   `highshelf`;
//! - `waveshaper:<curve>:<drive>[:mix]`, `curve` one of `tanh`,
//!   `hardclip`, `cubic`, or `poly` followed by exactly four
//!   comma-separated coefficients (`poly:c0,c1,c2,c3`); the drive and the
//!   mix are the two fields after the curve's own;
//! - `delay:<seconds>[:feedback[:mix]]`;
//! - `reverb:<seconds>[:wet]`;
//! - `eq:<f0>,<g0>,<q0>;[<f1>,<g1>,<q1>;…]`, each band of exactly three
//!   comma-separated fields.
//!
//! [`EffectSpec::parse`] recognises the structure and the names, and checks
//! that the `poly` coefficients and the `eq` band fields are numbers as
//! `str::parse::<f32>` reads them ([`is_number`]), before it counts them.
//! The numeric fields are handed back as written, to be read as numbers by
//! the caller, which also supplies the defaults of omitted optional fields.
use crate::filters::BiquadType;
use crate::windows::WindowType;
use vstd::prelude::*;
use vstd::string::StrSliceExecFns;
use vstd::string::StringSliceAdditionalSpecFns;

verus! {

/// `s` split at every `sep`, like `str::split`: `n` separators give
/// `n + 1` pieces, empty pieces included.
pub open spec fn split_text(s: Seq<char>, sep: char) -> Seq<Seq<char>>
    decreases s.len(),
{
    if s.len() == 0 {
        seq![Seq::empty()]
    } else {
        let rest = split_text(s.drop_first(), sep);
        if s[0] == sep {
            seq![Seq::empty()] + rest
        } else {
            rest.update(0, seq![s[0]] + rest[0])
        }
    }
}

/// The biquad response named `name`, if any.
pub open spec fn biquad_type_named(name: Seq<char>) -> Option<BiquadType> {
    if name == "lowpass"@ {
        Some(BiquadType::LowPass)
    } else if name == "highpass"@ {
        Some(BiquadType::HighPass)
    } else if name == "bandpass"@ {
        Some(BiquadType::BandPass)
    } else if name == "notch"@ {
        Some(BiquadType::Notch)
    } else if name == "allpass"@ {
        Some(BiquadType::AllPass)
    } else if name == "peaking"@ {
        Some(BiquadType::Peaking)
    } else if name == "lowshelf"@ {
        Some(BiquadType::LowShelf)
    } else if name == "highshelf"@ {
        Some(BiquadType::HighShelf)
    } else {
        None
    }
}

/// Parse a biquad response name (`lowpass`, `highpass`, `bandpass`,
/// `notch`, `allpass`, `peaking`, `lowshelf`, `highshelf`).
pub fn parse_biquad_type(name: &str) -> (r: Option<BiquadType>)
    ensures
        r == biquad_type_named(name@),
{
    let b = name.as_bytes();
    if bytes_eq(b, "lowpass".as_bytes()) {
        proof { lemma_same_bytes_same_text(name, "lowpass"); }
        Some(BiquadType::LowPass)
    } else if bytes_eq(b, "highpass".as_bytes()) {
        proof { lemma_same_bytes_same_text(name, "highpass"); }
        Some(BiquadType::HighPass)
    } else if bytes_eq(b, "bandpass".as_bytes()) {
        proof { lemma_same_bytes_same_text(name, "bandpass"); }
        Some(BiquadType::BandPass)
    } else if bytes_eq(b, "notch".as_bytes()) {
        proof { lemma_same_bytes_same_text(name, "notch"); }
        Some(BiquadType::Notch)
    } else if bytes_eq(b, "allpass".as_bytes()) {
        proof { lemma_same_bytes_same_text(name, "allpass"); }
        Some(BiquadType::AllPass)
    } else if bytes_eq(b, "peaking".as_bytes()) {
        proof { lemma_same_bytes_same_text(name, "peaking"); }
        Some(BiquadType::Peaking)
    } else if bytes_eq(b, "lowshelf".as_bytes()) {
        proof { lemma_same_bytes_same_text(name, "lowshelf"); }
        Some(BiquadType::LowShelf)
    } else if bytes_eq(b, "highshelf".as_bytes()) {
        proof { lemma_same_bytes_same_text(name, "highshelf"); }
        Some(BiquadType::HighShelf)
    } else {
        proof {
            lemma_same_text_same_bytes(name, "lowpass");
            lemma_same_text_same_bytes(name, "highpass");
            lemma_same_text_same_bytes(name, "bandpass");
            lemma_same_text_same_bytes(name, "notch");
            lemma_same_text_same_bytes(name, "allpass");
            lemma_same_text_same_bytes(name, "peaking");
            lemma_same_text_same_bytes(name, "lowshelf");
            lemma_same_text_same_bytes(name, "highshelf");
        }
        None
    }
}

/// Two strings with the same UTF-8 bytes hold the same text.
proof fn lemma_same_bytes_same_text(a: &str, b: &str)
    requires
        a.spec_bytes() == b.spec_bytes(),
    ensures
        a@ == b@,
{
    vstd::utf8::encode_utf8_decode_utf8(a@);
    vstd::utf8::encode_utf8_decode_utf8(b@);
}

/// Two strings with the same text have the same UTF-8 bytes.
proof fn lemma_same_text_same_bytes(a: &str, b: &str)
    ensures
        a@ == b@ ==> a.spec_bytes() == b.spec_bytes(),
{
}

/// Byte-for-byte equality of two slices.
fn bytes_eq(a: &[u8], b: &[u8]) -> (r: bool)
    ensures
        r == (a@ == b@),
{
    if a.len() != b.len() {
        return false;
    }
    let mut i: usize = 0;
    while i < a.len()
        invariant
            a@.len() == b@.len(),
            0 <= i <= a@.len(),
            forall|k: int| 0 <= k < i ==> a@[k] == b@[k],
        decreases a@.len() - i,
    {
        if a[i] != b[i] {
            return false;
        }
        i = i + 1;
    }
    assert(a@ =~= b@);
    true
}

/// An ASCII decimal digit.
pub open spec fn is_digit(c: char) -> bool {
    '0' <= c <= '9'
}

/// A sign character.
pub open spec fn is_sign(c: char) -> bool {
    c == '+' || c == '-'
}

/// The exponent marker, in either case.
pub open spec fn is_exp_mark(c: char) -> bool {
    c == 'e' || c == 'E'
}

/// `s` spells the word whose lower-case letters are `lower` and upper-case
/// letters `upper`, each letter in either case.
pub open spec fn word_is(s: Seq<char>, lower: Seq<char>, upper: Seq<char>) -> bool {
    &&& s.len() == lower.len()
    &&& s.len() == upper.len()
    &&& forall|i: int| 0 <= i < s.len() ==> s[i] == lower[i] || s[i] == upper[i]
}

/// Every character of `s` is a digit.
pub open spec fn all_digits(s: Seq<char>) -> bool {
    forall|i: int| 0 <= i < s.len() ==> is_digit(#[trigger] s[i])
}

/// `Digit+ | Digit+ '.' Digit* | Digit* '.' Digit+`: digits with at most one
/// point, and at least one digit.
pub open spec fn is_mantissa(s: Seq<char>) -> bool {
    &&& forall|i: int| 0 <= i < s.len() ==> is_digit(#[trigger] s[i]) || s[i] == '.'
    &&& forall|i: int, j: int| 0 <= i < s.len() && 0 <= j < s.len() && #[trigger] s[i] == '.' && #[trigger] s[j] == '.' ==> i == j
    &&& exists|i: int| 0 <= i < s.len() && is_digit(#[trigger] s[i])
}

/// `Sign? Digit+`.
pub open spec fn is_exponent(s: Seq<char>) -> bool {
    if s.len() > 0 && is_sign(s[0]) {
        s.len() >= 2 && all_digits(s.drop_first())
    } else {
        s.len() >= 1 && all_digits(s)
    }
}

/// A mantissa, optionally followed by an exponent marker and an exponent.
pub open spec fn is_decimal(s: Seq<char>) -> bool {
    ||| is_mantissa(s)
    ||| exists|k: int|
        0 <= k < s.len() && is_exp_mark(#[trigger] s[k]) && is_mantissa(s.take(k)) && is_exponent(
            s.skip(k + 1),
        )
}

/// The text of a number that `str::parse::<f32>` accepts, as its
/// documentation gives the grammar: an optional sign, then `inf`,
/// `infinity`, `nan` (in any case) or a decimal with an optional exponent.
pub open spec fn number_text(s: Seq<char>) -> bool {
    let u = if s.len() > 0 && is_sign(s[0]) { s.drop_first() } else { s };
    ||| word_is(u, seq!['i', 'n', 'f'], seq!['I', 'N', 'F'])
    ||| word_is(
        u,
        seq!['i', 'n', 'f', 'i', 'n', 'i', 't', 'y'],
        seq!['I', 'N', 'F', 'I', 'N', 'I', 'T', 'Y'],
    )
    ||| word_is(u, seq!['n', 'a', 'n'], seq!['N', 'A', 'N'])
    ||| is_decimal(u)
}

/// The characters of `s`.
fn chars_of(s: &str) -> (r: Vec<char>)
    ensures
        r@ == s@,
{
    let n = s.unicode_len();
    let mut r: Vec<char> = Vec::new();
    let mut i: usize = 0;
    while i < n
        invariant
            n == s@.len(),
            0 <= i <= n,
            r@ == s@.take(i as int),
        decreases n - i,
    {
        r.push(s.get_char(i));
        i = i + 1;
        assert(r@ =~= s@.take(i as int));
    }
    assert(s@.take(n as int) =~= s@);
    r
}

/// Whether `c[lo..hi]` spells the word `lower` / `upper` in any case.
fn word_ok(c: &[char], lo: usize, hi: usize, lower: &[char], upper: &[char]) -> (r: bool)
    requires
        lo <= hi <= c@.len(),
        lower@.len() == upper@.len(),
    ensures
        r == word_is(c@.subrange(lo as int, hi as int), lower@, upper@),
{
    let ghost s = c@.subrange(lo as int, hi as int);
    if hi - lo != lower.len() {
        return false;
    }
    let mut i: usize = 0;
    while i < lower.len()
        invariant
            s == c@.subrange(lo as int, hi as int),
            lo <= hi <= c@.len(),
            hi - lo == lower@.len(),
            lower@.len() == upper@.len(),
            0 <= i <= lower@.len(),
            forall|j: int| 0 <= j < i ==> s[j] == lower@[j] || s[j] == upper@[j],
        decreases lower@.len() - i,
    {
        let a = c[lo + i];
        assert(a == s[i as int]);
        if a != lower[i] && a != upper[i] {
            return false;
        }
        i = i + 1;
    }
    true
}

/// Whether `c[lo..hi]` is a mantissa.
fn mantissa_ok(c: &[char], lo: usize, hi: usize) -> (r: bool)
    requires
        lo <= hi <= c@.len(),
    ensures
        r == is_mantissa(c@.subrange(lo as int, hi as int)),
{
    let ghost s = c@.subrange(lo as int, hi as int);
    let mut seen_dot = false;
    let mut seen_digit = false;
    let ghost mut dot_at: int = 0;
    let ghost mut digit_at: int = 0;
    let mut i: usize = lo;
    while i < hi
        invariant
            s == c@.subrange(lo as int, hi as int),
            lo <= i <= hi <= c@.len(),
            forall|j: int| 0 <= j < i - lo ==> is_digit(#[trigger] s[j]) || s[j] == '.',
            seen_dot ==> 0 <= dot_at < i - lo && s[dot_at] == '.',
            !seen_dot ==> forall|j: int| 0 <= j < i - lo ==> #[trigger] s[j] != '.',
            seen_dot ==> forall|j: int| 0 <= j < i - lo && #[trigger] s[j] == '.' ==> j == dot_at,
            seen_digit ==> 0 <= digit_at < i - lo && is_digit(s[digit_at]),
            !seen_digit ==> forall|j: int| 0 <= j < i - lo ==> !is_digit(#[trigger] s[j]),
        decreases hi - i,
    {
        let ch = c[i];
        assert(ch == s[i - lo]);
        if '0' <= ch && ch <= '9' {
            if !seen_digit {
                proof { digit_at = i - lo; }
            }
            seen_digit = true;
        } else if ch == '.' && !seen_dot {
            proof { dot_at = i - lo; }
            seen_dot = true;
        } else {
            proof {
                if ch == '.' {
                    let a = dot_at;
                    let b = i - lo;
                    assert(s[a] == '.' && s[b] == '.' && a != b);
                }
            }
            return false;
        }
        i = i + 1;
    }
    if seen_digit {
        assert(is_digit(s[digit_at]));
        true
    } else {
        false
    }
}

/// Whether `c[lo..hi]` is every digit.
fn digits_ok(c: &[char], lo: usize, hi: usize) -> (r: bool)
    requires
        lo <= hi <= c@.len(),
    ensures
        r == all_digits(c@.subrange(lo as int, hi as int)),
{
    let ghost s = c@.subrange(lo as int, hi as int);
    let mut i: usize = lo;
    while i < hi
        invariant
            s == c@.subrange(lo as int, hi as int),
            lo <= i <= hi <= c@.len(),
            forall|j: int| 0 <= j < i - lo ==> is_digit(#[trigger] s[j]),
        decreases hi - i,
    {
        let ch = c[i];
        assert(ch == s[i - lo]);
        if !('0' <= ch && ch <= '9') {
            return false;
        }
        i = i + 1;
    }
    true
}

/// Whether `c[lo..hi]` is an exponent.
fn exponent_ok(c: &[char], lo: usize, hi: usize) -> (r: bool)
    requires
        lo <= hi <= c@.len(),
    ensures
        r == is_exponent(c@.subrange(lo as int, hi as int)),
{
    let ghost s = c@.subrange(lo as int, hi as int);
    if lo < hi && (c[lo] == '+' || c[lo] == '-') {
        assert(s[0] == c@[lo as int]);
        assert(s.drop_first() =~= c@.subrange(lo + 1, hi as int));
        hi - lo >= 2 && digits_ok(c, lo + 1, hi)
    } else {
        proof {
            if lo < hi {
                assert(s[0] == c@[lo as int]);
            }
        }
        lo < hi && digits_ok(c, lo, hi)
    }
}

/// Whether `c[lo..hi]` is a decimal with an optional exponent.
fn decimal_ok(c: &[char], lo: usize, hi: usize) -> (r: bool)
    requires
        lo <= hi <= c@.len(),
    ensures
        r == is_decimal(c@.subrange(lo as int, hi as int)),
{
    let ghost s = c@.subrange(lo as int, hi as int);
    let mut k: usize = lo;
    while k < hi && c[k] != 'e' && c[k] != 'E'
        invariant
            s == c@.subrange(lo as int, hi as int),
            lo <= k <= hi <= c@.len(),
            forall|j: int| 0 <= j < k - lo ==> !is_exp_mark(#[trigger] s[j]),
        decreases hi - k,
    {
        assert(c@[k as int] == s[k - lo]);
        k = k + 1;
    }
    if k == hi {
        let r = mantissa_ok(c, lo, hi);
        proof {
            if !r {
                assert(!exists|m: int|
                    0 <= m < s.len() && is_exp_mark(#[trigger] s[m]) && is_mantissa(s.take(m))
                        && is_exponent(s.skip(m + 1)));
            }
        }
        r
    } else {
        let rel = k - lo;
        assert(s[rel as int] == c@[k as int]);
        assert(s.take(rel as int) =~= c@.subrange(lo as int, k as int));
        assert(s.skip(rel + 1) =~= c@.subrange(k + 1, hi as int));
        let m = mantissa_ok(c, lo, k);
        let e = exponent_ok(c, k + 1, hi);
        proof {
            // The mantissa has no exponent marker, so `rel` is the only
            // place the marker can stand, and `s` itself is no mantissa.
            assert(!is_mantissa(s)) by {
                if is_mantissa(s) {
                    assert(is_digit(s[rel as int]) || s[rel as int] == '.');
                }
            }
            assert forall|q: int|
                0 <= q < s.len() && is_exp_mark(#[trigger] s[q]) && is_mantissa(s.take(q)) implies q
                == rel by {
                if q > rel {
                    assert(s.take(q)[rel as int] == s[rel as int]);
                    assert(is_digit(s.take(q)[rel as int]) || s.take(q)[rel as int] == '.');
                }
            }
        }
        m && e
    }
}

/// Whether `text` is a number that `str::parse::<f32>` accepts.
pub fn is_number(text: &str) -> (r: bool)
    ensures
        r == number_text(text@),
{
    let c = chars_of(text);
    let n = c.len();
    let lo: usize = if n > 0 && (c[0] == '+' || c[0] == '-') { 1 } else { 0 };
    let ghost u = if text@.len() > 0 && is_sign(text@[0]) { text@.drop_first() } else { text@ };
    assert(u =~= c@.subrange(lo as int, n as int));
    let inf = ['i', 'n', 'f'];
    let inf_upper = ['I', 'N', 'F'];
    let infinity = ['i', 'n', 'f', 'i', 'n', 'i', 't', 'y'];
    let infinity_upper = ['I', 'N', 'F', 'I', 'N', 'I', 'T', 'Y'];
    let nan = ['n', 'a', 'n'];
    let nan_upper = ['N', 'A', 'N'];
    assert(inf@ =~= seq!['i', 'n', 'f']);
    assert(inf_upper@ =~= seq!['I', 'N', 'F']);
    assert(infinity@ =~= seq!['i', 'n', 'f', 'i', 'n', 'i', 't', 'y']);
    assert(infinity_upper@ =~= seq!['I', 'N', 'F', 'I', 'N', 'I', 'T', 'Y']);
    assert(nan@ =~= seq!['n', 'a', 'n']);
    assert(nan_upper@ =~= seq!['N', 'A', 'N']);
    let cs = c.as_slice();
    word_ok(cs, lo, n, &inf, &inf_upper) || word_ok(cs, lo, n, &infinity, &infinity_upper)
        || word_ok(cs, lo, n, &nan, &nan_upper) || decimal_ok(cs, lo, n)
}

/// A waveshaper transfer curve as written in an effect spec.
#[derive(Debug, Clone, PartialEq, Eq)]
pub enum CurveSpec {
    /// `tanh`.
    Tanh,
    /// `hardclip`.
    HardClip,
    /// `cubic`.
    Cubic,
    /// `poly` with its comma-separated coefficient fields.
    Poly(Vec<String>),
}

/// An effect spec recognised by [`EffectSpec::parse`]. Numeric fields are
/// kept as written; optional ones are `None` when omitted.
#[derive(Debug, Clone, PartialEq, Eq)]
pub enum EffectSpec {
    /// `biquad:<type>:<freq>[:q[:gain_db]]`.
    Biquad { kind: BiquadType, freq: String, q: Option<String>, gain: Option<String> },
    /// `waveshaper:<curve>:<drive>[:mix]`; an omitted drive is `None`.
    Waveshaper { curve: CurveSpec, drive: Option<String>, mix: Option<String> },
    /// `delay:<seconds>[:feedback[:mix]]`.
    Delay { seconds: String, feedback: Option<String>, mix: Option<String> },
    /// `reverb:<seconds>[:wet]`.
    Reverb { decay: String, wet: Option<String> },
    /// `eq:<band>;<band>;…`, each non-empty band split at its commas.
    Eq { bands: Vec<Vec<String>> },
}

/// Why an effect spec was refused.
#[derive(Debug, Clone, PartialEq, Eq)]
pub enum EffectSpecError {
    /// The spec has no `<kind>:` prefix.
    MissingKind,
    /// The required field at this index (after the kind) is missing.
    MissingField(usize),
    /// The biquad type is not one of the known names.
    UnknownBiquadType(String),
    /// `poly` is not followed by a coefficient field.
    MissingPolyCoefficients,
    /// `poly` is followed by this many coefficients instead of four.
    PolyCoefficientCount(usize),
    /// A coefficient or an `eq` band field that is not a number.
    BadNumber(String),
    /// The waveshaper curve is not one of the known names.
    UnknownCurve(String),
    /// An `eq` spec without any non-empty band.
    NoEqBand,
    /// An `eq` band (given by its comma-separated fields) that does not
    /// have exactly the three fields `freq,gain,q`.
    EqBandFieldCount(Vec<String>),
    /// The effect kind is not one of the known names.
    UnknownEffect(String),
}

/// Mathematical model of a [`CurveSpec`].
pub enum CurveModel {
    Tanh,
    HardClip,
    Cubic,
    Poly(Seq<Seq<char>>),
}

/// Mathematical model of an [`EffectSpec`].
pub enum EffectModel {
    Biquad { kind: BiquadType, freq: Seq<char>, q: Option<Seq<char>>, gain: Option<Seq<char>> },
    Waveshaper { curve: CurveModel, drive: Option<Seq<char>>, mix: Option<Seq<char>> },
    Delay { seconds: Seq<char>, feedback: Option<Seq<char>>, mix: Option<Seq<char>> },
    Reverb { decay: Seq<char>, wet: Option<Seq<char>> },
    Eq { bands: Seq<Seq<Seq<char>>> },
}

/// Mathematical model of an [`EffectSpecError`].
pub enum EffectErrorModel {
    MissingKind,
    MissingField(nat),
    UnknownBiquadType(Seq<char>),
    MissingPolyCoefficients,
    PolyCoefficientCount(nat),
    BadNumber(Seq<char>),
    UnknownCurve(Seq<char>),
    NoEqBand,
    EqBandFieldCount(Seq<Seq<char>>),
    UnknownEffect(Seq<char>),
}

/// The text of a list of fields.
pub open spec fn texts(v: Seq<String>) -> Seq<Seq<char>> {
    Seq::new(v.len(), |i: int| v[i]@)
}

/// The text of an optional field.
pub open spec fn opt_text(o: Option<String>) -> Option<Seq<char>> {
    match o {
        Some(s) => Some(s@),
        None => None,
    }
}

impl CurveSpec {
    /// The curve's model.
    pub open spec fn model(&self) -> CurveModel {
        match self {
            CurveSpec::Tanh => CurveModel::Tanh,
            CurveSpec::HardClip => CurveModel::HardClip,
            CurveSpec::Cubic => CurveModel::Cubic,
            CurveSpec::Poly(c) => CurveModel::Poly(texts(c@)),
        }
    }
}

impl EffectSpec {
    /// The effect's model.
    pub open spec fn model(&self) -> EffectModel {
        match self {
            EffectSpec::Biquad { kind, freq, q, gain } => EffectModel::Biquad {
                kind: *kind,
                freq: freq@,
                q: opt_text(*q),
                gain: opt_text(*gain),
            },
            EffectSpec::Waveshaper { curve, drive, mix } => EffectModel::Waveshaper {
                curve: curve.model(),
                drive: opt_text(*drive),
                mix: opt_text(*mix),
            },
            EffectSpec::Delay { seconds, feedback, mix } => EffectModel::Delay {
                seconds: seconds@,
                feedback: opt_text(*feedback),
                mix: opt_text(*mix),
            },
            EffectSpec::Reverb { decay, wet } => EffectModel::Reverb {
                decay: decay@,
                wet: opt_text(*wet),
            },
            EffectSpec::Eq { bands } => EffectModel::Eq {
                bands: Seq::new(bands@.len(), |i: int| texts(bands@[i]@)),
            },
        }
    }
}

impl EffectSpecError {
    /// The error's model.
    pub open spec fn model(&self) -> EffectErrorModel {
        match self {
            EffectSpecError::MissingKind => EffectErrorModel::MissingKind,
            EffectSpecError::MissingField(i) => EffectErrorModel::MissingField(*i as nat),
            EffectSpecError::UnknownBiquadType(n) => EffectErrorModel::UnknownBiquadType(n@),
            EffectSpecError::MissingPolyCoefficients => EffectErrorModel::MissingPolyCoefficients,
            EffectSpecError::PolyCoefficientCount(n) => EffectErrorModel::PolyCoefficientCount(
                *n as nat,
            ),
            EffectSpecError::UnknownCurve(n) => EffectErrorModel::UnknownCurve(n@),
            EffectSpecError::BadNumber(t) => EffectErrorModel::BadNumber(t@),
            EffectSpecError::NoEqBand => EffectErrorModel::NoEqBand,
            EffectSpecError::EqBandFieldCount(b) => EffectErrorModel::EqBandFieldCount(texts(b@)),
            EffectSpecError::UnknownEffect(n) => EffectErrorModel::UnknownEffect(n@),
        }
    }
}

/// The `i`-th field, if present.
pub open spec fn field_at(fields: Seq<Seq<char>>, i: int) -> Option<Seq<char>> {
    if 0 <= i < fields.len() {
        Some(fields[i])
    } else {
        None
    }
}

/// The non-empty pieces, each split at its commas.
pub open spec fn eq_bands(pieces: Seq<Seq<char>>) -> Seq<Seq<Seq<char>>>
    decreases pieces.len(),
{
    if pieces.len() == 0 {
        Seq::empty()
    } else {
        let earlier = eq_bands(pieces.drop_last());
        if pieces.last().len() > 0 {
            earlier.push(split_text(pieces.last(), ','))
        } else {
            earlier
        }
    }
}

/// The waveshaper curve named by the fields after the kind.
pub open spec fn curve_model(fields: Seq<Seq<char>>) -> Result<CurveModel, EffectErrorModel> {
    let name = fields[0];
    if name == "tanh"@ {
        Ok(CurveModel::Tanh)
    } else if name == "hardclip"@ {
        Ok(CurveModel::HardClip)
    } else if name == "cubic"@ {
        Ok(CurveModel::Cubic)
    } else if name == "poly"@ {
        if fields.len() < 2 {
            Err(EffectErrorModel::MissingPolyCoefficients)
        } else {
            let coefficients = split_text(fields[1], ',');
            match first_bad_number(coefficients) {
                Some(t) => Err(EffectErrorModel::BadNumber(t)),
                None => if coefficients.len() != 4 {
                    Err(EffectErrorModel::PolyCoefficientCount(coefficients.len()))
                } else {
                    Ok(CurveModel::Poly(coefficients))
                },
            }
        }
    } else {
        Err(EffectErrorModel::UnknownCurve(name))
    }
}

/// How many fields a curve takes in the spec: its name, and for `poly`
/// the coefficient field.
pub open spec fn curve_field_count(c: CurveModel) -> int {
    match c {
        CurveModel::Poly(_) => 2,
        _ => 1,
    }
}

/// The first field that is not a number, if any.
pub open spec fn first_bad_number(fields: Seq<Seq<char>>) -> Option<Seq<char>>
    decreases fields.len(),
{
    if fields.len() == 0 {
        None
    } else if !number_text(fields[0]) {
        Some(fields[0])
    } else {
        first_bad_number(fields.drop_first())
    }
}

/// The error of the first band, in order, that has a field that is not a
/// number or does not have exactly three fields, if any.
pub open spec fn eq_band_error(bands: Seq<Seq<Seq<char>>>) -> Option<EffectErrorModel>
    decreases bands.len(),
{
    if bands.len() == 0 {
        None
    } else {
        match first_bad_number(bands[0]) {
            Some(t) => Some(EffectErrorModel::BadNumber(t)),
            None => if bands[0].len() != 3 {
                Some(EffectErrorModel::EqBandFieldCount(bands[0]))
            } else {
                eq_band_error(bands.drop_first())
            },
        }
    }
}

/// What an effect spec `s` parses to.
pub open spec fn effect_model(s: Seq<char>) -> Result<EffectModel, EffectErrorModel> {
    let pieces = split_text(s, ':');
    if pieces.len() < 2 {
        Err(EffectErrorModel::MissingKind)
    } else {
        let kind = pieces[0];
        let rest = s.subrange(kind.len() as int + 1, s.len() as int);
        let fields = split_text(rest, ':');
        if kind == "biquad"@ {
            match biquad_type_named(fields[0]) {
                None => Err(EffectErrorModel::UnknownBiquadType(fields[0])),
                Some(t) => if fields.len() < 2 {
                    Err(EffectErrorModel::MissingField(1))
                } else {
                    Ok(
                        EffectModel::Biquad {
                            kind: t,
                            freq: fields[1],
                            q: field_at(fields, 2),
                            gain: field_at(fields, 3),
                        },
                    )
                },
            }
        } else if kind == "waveshaper"@ {
            match curve_model(fields) {
                Err(e) => Err(e),
                Ok(c) => Ok(
                    EffectModel::Waveshaper {
                        curve: c,
                        drive: field_at(fields, curve_field_count(c)),
                        mix: field_at(fields, curve_field_count(c) + 1),
                    },
                ),
            }
        } else if kind == "delay"@ {
            Ok(
                EffectModel::Delay {
                    seconds: fields[0],
                    feedback: field_at(fields, 1),
                    mix: field_at(fields, 2),
                },
            )
        } else if kind == "reverb"@ {
            Ok(EffectModel::Reverb { decay: fields[0], wet: field_at(fields, 1) })
        } else if kind == "eq"@ {
            let bands = eq_bands(split_text(rest, ';'));
            match eq_band_error(bands) {
                Some(e) => Err(e),
                None => if bands.len() == 0 {
                    Err(EffectErrorModel::NoEqBand)
                } else {
                    Ok(EffectModel::Eq { bands })
                },
            }
        } else {
            Err(EffectErrorModel::UnknownEffect(kind))
        }
    }
}

/// `split_text` peels one character off the front.
proof fn lemma_split_text_step(s: Seq<char>, sep: char, i: int)
    requires
        0 <= i < s.len(),
    ensures
        ({
            let r = split_text(s.subrange(i + 1, s.len() as int), sep);
            &&& r.len() >= 1
            &&& s[i] == sep ==> split_text(s.subrange(i, s.len() as int), sep) == seq![Seq::<char>::empty()] + r
            &&& s[i] != sep ==> split_text(s.subrange(i, s.len() as int), sep) == r.update(0, seq![s[i]] + r[0])
        }),
{
    let t = s.subrange(i, s.len() as int);
    assert(t.drop_first() =~= s.subrange(i + 1, s.len() as int));
    lemma_split_text_nonempty(s.subrange(i + 1, s.len() as int), sep);
}

proof fn lemma_split_text_nonempty(s: Seq<char>, sep: char)
    ensures
        split_text(s, sep).len() >= 1,
    decreases s.len(),
{
    if s.len() > 0 {
        lemma_split_text_nonempty(s.drop_first(), sep);
    }
}

/// `fields` joined with `sep` between consecutive fields.
pub open spec fn join_text(fields: Seq<Seq<char>>, sep: char) -> Seq<char>
    decreases fields.len(),
{
    if fields.len() <= 1 {
        if fields.len() == 0 {
            Seq::empty()
        } else {
            fields[0]
        }
    } else {
        fields[0] + seq![sep] + join_text(fields.drop_first(), sep)
    }
}

/// `s` does not contain `sep`.
pub open spec fn free_of(s: Seq<char>, sep: char) -> bool {
    forall|i: int| 0 <= i < s.len() ==> s[i] != sep
}

/// Splitting text that starts with a separator-free `a` glues `a` onto the
/// first piece.
proof fn lemma_split_text_prefix(a: Seq<char>, rest: Seq<char>, sep: char)
    requires
        free_of(a, sep),
    ensures
        split_text(a + rest, sep) == split_text(rest, sep).update(0, a + split_text(rest, sep)[0]),
        split_text(rest, sep).len() >= 1,
    decreases a.len(),
{
    lemma_split_text_nonempty(rest, sep);
    let r = split_text(rest, sep);
    if a.len() == 0 {
        assert(a + rest =~= rest);
        assert(a + r[0] =~= r[0]);
        assert(r.update(0, r[0]) =~= r);
    } else {
        let tail = a.drop_first();
        lemma_split_text_prefix(tail, rest, sep);
        assert((a + rest).drop_first() =~= tail + rest);
        assert((a + rest)[0] == a[0]);
        assert(seq![a[0]] + (tail + r[0]) =~= a + r[0]);
        assert(r.update(0, tail + r[0]).update(0, seq![a[0]] + (tail + r[0])) =~= r.update(
            0,
            a + r[0],
        ));
    }
}

/// Splitting separator-free fields joined with the separator gives the
/// fields back.
proof fn lemma_split_join(fields: Seq<Seq<char>>, sep: char)
    requires
        fields.len() >= 1,
        forall|i: int| 0 <= i < fields.len() ==> free_of(#[trigger] fields[i], sep),
    ensures
        split_text(join_text(fields, sep), sep) == fields,
    decreases fields.len(),
{
    let a = fields[0];
    if fields.len() == 1 {
        lemma_split_text_prefix(a, Seq::empty(), sep);
        assert(a + Seq::<char>::empty() =~= a);
        assert(split_text(Seq::<char>::empty(), sep) == seq![Seq::<char>::empty()]);
        assert(seq![Seq::<char>::empty()].update(0, a + Seq::<char>::empty()) =~= fields);
    } else {
        let others = fields.drop_first();
        assert forall|i: int| 0 <= i < others.len() implies free_of(#[trigger] others[i], sep) by {
            assert(others[i] == fields[i + 1]);
        }
        lemma_split_join(others, sep);
        let b = join_text(others, sep);
        let rest = seq![sep] + b;
        assert(join_text(fields, sep) =~= a + rest);
        lemma_split_text_prefix(a, rest, sep);
        assert(rest.drop_first() =~= b);
        assert(split_text(rest, sep) == seq![Seq::<char>::empty()] + split_text(b, sep));
        assert((seq![Seq::<char>::empty()] + others).update(0, a + Seq::<char>::empty()) =~= fields);
        assert(a + Seq::<char>::empty() =~= a);
    }
}

/// A spec `<kind>:<fields joined by ':'>` splits into that kind and those
/// fields.
proof fn lemma_spec_parts(kind: Seq<char>, fields: Seq<Seq<char>>)
    requires
        free_of(kind, ':'),
        fields.len() >= 1,
        forall|i: int| 0 <= i < fields.len() ==> free_of(#[trigger] fields[i], ':'),
    ensures
        ({
            let s = kind + seq![':'] + join_text(fields, ':');
            &&& split_text(s, ':').len() >= 2
            &&& split_text(s, ':')[0] == kind
            &&& s.subrange(kind.len() as int + 1, s.len() as int) == join_text(fields, ':')
            &&& split_text(join_text(fields, ':'), ':') == fields
        }),
{
    let j = join_text(fields, ':');
    let s = kind + seq![':'] + j;
    lemma_split_join(fields, ':');
    lemma_split_text_prefix(kind, seq![':'] + j, ':');
    assert(s =~= kind + (seq![':'] + j));
    assert((seq![':'] + j).drop_first() =~= j);
    lemma_split_text_nonempty(j, ':');
    assert(kind + Seq::<char>::empty() =~= kind);
    assert(s.subrange(kind.len() as int + 1, s.len() as int) =~= j);
}

/// Whether a set of fields are all separator-free.
pub open spec fn all_free_of(fields: Seq<Seq<char>>, sep: char) -> bool {
    forall|i: int| 0 <= i < fields.len() ==> free_of(#[trigger] fields[i], sep)
}

/// A delay spec names its fields by position: the delay time, then the
/// feedback, then the wet/dry mix; omitted trailing fields are `None`.
pub proof fn lemma_delay_fields(seconds: Seq<char>, feedback: Seq<char>, mix: Seq<char>)
    requires
        free_of(seconds, ':'),
        free_of(feedback, ':'),
        free_of(mix, ':'),
    ensures
        effect_model("delay"@ + seq![':'] + seconds + seq![':'] + feedback + seq![':'] + mix) == Ok::<
            EffectModel,
            EffectErrorModel,
        >(EffectModel::Delay { seconds, feedback: Some(feedback), mix: Some(mix) }),
        effect_model("delay"@ + seq![':'] + seconds + seq![':'] + feedback) == Ok::<
            EffectModel,
            EffectErrorModel,
        >(EffectModel::Delay { seconds, feedback: Some(feedback), mix: None }),
        effect_model("delay"@ + seq![':'] + seconds) == Ok::<EffectModel, EffectErrorModel>(
            EffectModel::Delay { seconds, feedback: None, mix: None },
        ),
{
    lemma_kind_names();
    let kind = "delay"@;
    lemma_join_small(seconds, feedback, mix, mix, ':');
    lemma_spec_parts(kind, seq![seconds, feedback, mix]);
    lemma_spec_parts(kind, seq![seconds, feedback]);
    lemma_spec_parts(kind, seq![seconds]);
    assert(kind + seq![':'] + (seconds + seq![':'] + feedback + seq![':'] + mix) =~= kind + seq![':']
        + seconds + seq![':'] + feedback + seq![':'] + mix);
    assert(kind + seq![':'] + (seconds + seq![':'] + feedback) =~= kind + seq![':'] + seconds
        + seq![':'] + feedback);
}

/// Reveal the effect kinds' names.
proof fn lemma_kind_names()
    ensures
        "biquad"@ == seq!['b', 'i', 'q', 'u', 'a', 'd'],
        "waveshaper"@ == seq!['w', 'a', 'v', 'e', 's', 'h', 'a', 'p', 'e', 'r'],
        "delay"@ == seq!['d', 'e', 'l', 'a', 'y'],
        "reverb"@ == seq!['r', 'e', 'v', 'e', 'r', 'b'],
        "eq"@ == seq!['e', 'q'],
        "tanh"@ == seq!['t', 'a', 'n', 'h'],
        "hardclip"@ == seq!['h', 'a', 'r', 'd', 'c', 'l', 'i', 'p'],
        "cubic"@ == seq!['c', 'u', 'b', 'i', 'c'],
        "poly"@ == seq!['p', 'o', 'l', 'y'],
{
    reveal_strlit("biquad");
    reveal_strlit("waveshaper");
    reveal_strlit("delay");
    reveal_strlit("reverb");
    reveal_strlit("eq");
    reveal_strlit("tanh");
    reveal_strlit("hardclip");
    reveal_strlit("cubic");
    reveal_strlit("poly");
}

/// Joining two, three or four fields with a separator.
proof fn lemma_join_small(a: Seq<char>, b: Seq<char>, c: Seq<char>, d: Seq<char>, sep: char)
    ensures
        join_text(seq![a], sep) == a,
        join_text(seq![a, b], sep) == a + seq![sep] + b,
        join_text(seq![a, b, c], sep) == a + seq![sep] + b + seq![sep] + c,
        join_text(seq![a, b, c, d], sep) == a + seq![sep] + b + seq![sep] + c + seq![sep] + d,
{
    assert(seq![a, b].drop_first() =~= seq![b]);
    assert(seq![a, b, c].drop_first() =~= seq![b, c]);
    assert(seq![b, c].drop_first() =~= seq![c]);
    assert(seq![a, b, c, d].drop_first() =~= seq![b, c, d]);
    assert(seq![b, c, d].drop_first() =~= seq![c, d]);
    assert(seq![c, d].drop_first() =~= seq![d]);
    assert(join_text(seq![b], sep) == b);
    assert(join_text(seq![c], sep) == c);
    assert(join_text(seq![d], sep) == d);
    assert(join_text(seq![c, d], sep) == c + seq![sep] + d);
    assert(join_text(seq![b, c], sep) == b + seq![sep] + c);
    assert(join_text(seq![b, c, d], sep) == b + seq![sep] + (c + seq![sep] + d));
    assert(join_text(seq![a, b, c], sep) =~= a + seq![sep] + b + seq![sep] + c);
    assert(join_text(seq![a, b, c, d], sep) =~= a + seq![sep] + b + seq![sep] + c + seq![sep] + d);
}

/// A reverb spec names its fields by position: the decay time, then the
/// wet level; an omitted wet level is `None`.
pub proof fn lemma_reverb_fields(decay: Seq<char>, wet: Seq<char>)
    requires
        free_of(decay, ':'),
        free_of(wet, ':'),
    ensures
        effect_model("reverb"@ + seq![':'] + decay + seq![':'] + wet) == Ok::<
            EffectModel,
            EffectErrorModel,
        >(EffectModel::Reverb { decay, wet: Some(wet) }),
        effect_model("reverb"@ + seq![':'] + decay) == Ok::<EffectModel, EffectErrorModel>(
            EffectModel::Reverb { decay, wet: None },
        ),
{
    lemma_kind_names();
    let kind = "reverb"@;
    lemma_join_small(decay, wet, wet, wet, ':');
    lemma_spec_parts(kind, seq![decay, wet]);
    lemma_spec_parts(kind, seq![decay]);
    assert(kind + seq![':'] + (decay + seq![':'] + wet) =~= kind + seq![':'] + decay + seq![':'] + wet);
}

/// A biquad spec names its fields by position: the response type, the
/// frequency, then the Q and the gain; omitted trailing fields are `None`.
pub proof fn lemma_biquad_fields(name: Seq<char>, freq: Seq<char>, q: Seq<char>, gain: Seq<char>)
    requires
        biquad_type_named(name) is Some,
        free_of(freq, ':'),
        free_of(q, ':'),
        free_of(gain, ':'),
    ensures
        effect_model("biquad"@ + seq![':'] + name + seq![':'] + freq + seq![':'] + q + seq![':'] + gain)
            == Ok::<EffectModel, EffectErrorModel>(
            EffectModel::Biquad {
                kind: biquad_type_named(name).unwrap(),
                freq,
                q: Some(q),
                gain: Some(gain),
            },
        ),
        effect_model("biquad"@ + seq![':'] + name + seq![':'] + freq) == Ok::<
            EffectModel,
            EffectErrorModel,
        >(
            EffectModel::Biquad {
                kind: biquad_type_named(name).unwrap(),
                freq,
                q: None,
                gain: None,
            },
        ),
{
    lemma_kind_names();
    reveal_strlit("lowpass");
    reveal_strlit("highpass");
    reveal_strlit("bandpass");
    reveal_strlit("notch");
    reveal_strlit("allpass");
    reveal_strlit("peaking");
    reveal_strlit("lowshelf");
    reveal_strlit("highshelf");
    assert(free_of(name, ':'));
    let kind = "biquad"@;
    lemma_join_small(name, freq, q, gain, ':');
    lemma_spec_parts(kind, seq![name, freq, q, gain]);
    lemma_spec_parts(kind, seq![name, freq]);
    assert(kind + seq![':'] + (name + seq![':'] + freq + seq![':'] + q + seq![':'] + gain) =~= kind
        + seq![':'] + name + seq![':'] + freq + seq![':'] + q + seq![':'] + gain);
    assert(kind + seq![':'] + (name + seq![':'] + freq) =~= kind + seq![':'] + name + seq![':']
        + freq);
}

/// For the one-field curves `tanh`, `hardclip` and `cubic`, the drive is the
/// field right after the curve and the mix the one after it.
pub proof fn lemma_waveshaper_fields(drive: Seq<char>, mix: Seq<char>)
    requires
        free_of(drive, ':'),
        free_of(mix, ':'),
    ensures
        effect_model("waveshaper:tanh"@ + seq![':'] + drive + seq![':'] + mix) == Ok::<
            EffectModel,
            EffectErrorModel,
        >(EffectModel::Waveshaper { curve: CurveModel::Tanh, drive: Some(drive), mix: Some(mix) }),
        effect_model("waveshaper:hardclip"@ + seq![':'] + drive + seq![':'] + mix) == Ok::<
            EffectModel,
            EffectErrorModel,
        >(
            EffectModel::Waveshaper {
                curve: CurveModel::HardClip,
                drive: Some(drive),
                mix: Some(mix),
            },
        ),
        effect_model("waveshaper:cubic"@ + seq![':'] + drive) == Ok::<EffectModel, EffectErrorModel>(
            EffectModel::Waveshaper { curve: CurveModel::Cubic, drive: Some(drive), mix: None },
        ),
        effect_model("waveshaper:tanh"@) == Ok::<EffectModel, EffectErrorModel>(
            EffectModel::Waveshaper { curve: CurveModel::Tanh, drive: None, mix: None },
        ),
{
    lemma_kind_names();
    reveal_strlit("waveshaper:tanh");
    reveal_strlit("waveshaper:hardclip");
    reveal_strlit("waveshaper:cubic");
    let kind = "waveshaper"@;
    let tanh = "tanh"@;
    let hardclip = "hardclip"@;
    let cubic = "cubic"@;
    lemma_join_small(tanh, drive, mix, mix, ':');
    lemma_join_small(hardclip, drive, mix, mix, ':');
    lemma_join_small(cubic, drive, mix, mix, ':');
    lemma_spec_parts(kind, seq![tanh, drive, mix]);
    lemma_spec_parts(kind, seq![hardclip, drive, mix]);
    lemma_spec_parts(kind, seq![cubic, drive]);
    lemma_spec_parts(kind, seq![tanh]);
    assert("waveshaper:tanh"@ + seq![':'] + drive + seq![':'] + mix =~= kind + seq![':'] + (tanh
        + seq![':'] + drive + seq![':'] + mix));
    assert("waveshaper:hardclip"@ + seq![':'] + drive + seq![':'] + mix =~= kind + seq![':']
        + (hardclip + seq![':'] + drive + seq![':'] + mix));
    assert("waveshaper:cubic"@ + seq![':'] + drive =~= kind + seq![':'] + (cubic + seq![':']
        + drive));
    assert("waveshaper:tanh"@ =~= kind + seq![':'] + tanh);
}

/// For the `poly` curve, the four number coefficients follow the curve, and
/// the drive and the mix follow them.
#[verifier::rlimit(40)]
pub proof fn lemma_poly_waveshaper_fields(
    c0: Seq<char>,
    c1: Seq<char>,
    c2: Seq<char>,
    c3: Seq<char>,
    drive: Seq<char>,
    mix: Seq<char>,
)
    requires
        number_text(c0),
        number_text(c1),
        number_text(c2),
        number_text(c3),
        free_of(c0, ':') && free_of(c0, ','),
        free_of(c1, ':') && free_of(c1, ','),
        free_of(c2, ':') && free_of(c2, ','),
        free_of(c3, ':') && free_of(c3, ','),
        free_of(drive, ':'),
        free_of(mix, ':'),
    ensures
        effect_model(
            "waveshaper:poly"@ + seq![':'] + c0 + seq![','] + c1 + seq![','] + c2 + seq![','] + c3
                + seq![':'] + drive + seq![':'] + mix,
        ) == Ok::<EffectModel, EffectErrorModel>(
            EffectModel::Waveshaper {
                curve: CurveModel::Poly(seq![c0, c1, c2, c3]),
                drive: Some(drive),
                mix: Some(mix),
            },
        ),
{
    lemma_kind_names();
    reveal_strlit("waveshaper:poly");
    let kind = "waveshaper"@;
    let poly = "poly"@;
    let coefficients = seq![c0, c1, c2, c3];
    let cs = c0 + seq![','] + c1 + seq![','] + c2 + seq![','] + c3;
    lemma_join_small(c0, c1, c2, c3, ',');
    lemma_split_join(coefficients, ',');
    assert(free_of(cs, ':'));
    lemma_join_small(poly, cs, drive, mix, ':');
    lemma_spec_parts(kind, seq![poly, cs, drive, mix]);
    assert(coefficients.drop_first() =~= seq![c1, c2, c3]);
    assert(seq![c1, c2, c3].drop_first() =~= seq![c2, c3]);
    assert(seq![c2, c3].drop_first() =~= seq![c3]);
    assert(seq![c3].drop_first() =~= Seq::<Seq<char>>::empty());
    assert(first_bad_number(coefficients) == None::<Seq<char>>) by {
        reveal_with_fuel(first_bad_number, 5);
    }
    let fields = seq![poly, cs, drive, mix];
    assert(fields[0] == poly && fields[1] == cs && fields[2] == drive && fields[3] == mix);
    assert(curve_model(fields) == Ok::<CurveModel, EffectErrorModel>(CurveModel::Poly(coefficients)));
    assert(field_at(fields, 2) == Some(drive));
    assert(field_at(fields, 3) == Some(mix));
    assert("waveshaper:poly"@ + seq![':'] + c0 + seq![','] + c1 + seq![','] + c2 + seq![','] + c3
        + seq![':'] + drive + seq![':'] + mix =~= kind + seq![':'] + (poly + seq![':'] + cs
        + seq![':'] + drive + seq![':'] + mix));
}

/// Two non-empty pieces make two bands, in order.
proof fn lemma_eq_bands_two(b0: Seq<char>, b1: Seq<char>)
    requires
        b0.len() > 0,
        b1.len() > 0,
    ensures
        eq_bands(seq![b0, b1]) == seq![split_text(b0, ','), split_text(b1, ',')],
{
    let pieces = seq![b0, b1];
    assert(pieces.drop_last() =~= seq![b0]);
    assert(pieces.last() == b1);
    assert(seq![b0].drop_last() =~= Seq::<Seq<char>>::empty());
    assert(seq![b0].last() == b0);
    assert(eq_bands(Seq::<Seq<char>>::empty()) == Seq::<Seq<Seq<char>>>::empty());
    assert(eq_bands(seq![b0]) =~= seq![split_text(b0, ',')]);
    assert(eq_bands(pieces) =~= seq![split_text(b0, ','), split_text(b1, ',')]);
}

/// The model of an `eq` spec whose bands are all well formed.
proof fn lemma_eq_model(rest: Seq<char>)
    requires
        free_of(rest, ':'),
        eq_band_error(eq_bands(split_text(rest, ';'))) == None::<EffectErrorModel>,
        eq_bands(split_text(rest, ';')).len() > 0,
    ensures
        effect_model("eq"@ + seq![':'] + rest) == Ok::<EffectModel, EffectErrorModel>(
            EffectModel::Eq { bands: eq_bands(split_text(rest, ';')) },
        ),
{
    lemma_kind_names();
    let kind = "eq"@;
    lemma_join_small(rest, rest, rest, rest, ':');
    lemma_spec_parts(kind, seq![rest]);
}

/// A band of three numbers splits into those numbers and has no error.
proof fn lemma_eq_band_ok(f: Seq<char>, g: Seq<char>, q: Seq<char>)
    requires
        number_text(f) && number_text(g) && number_text(q),
        free_of(f, ',') && free_of(g, ',') && free_of(q, ','),
    ensures
        split_text(f + seq![','] + g + seq![','] + q, ',') == seq![f, g, q],
        first_bad_number(seq![f, g, q]) == None::<Seq<char>>,
        (f + seq![','] + g + seq![','] + q).len() > 0,
{
    lemma_join_small(f, g, q, q, ',');
    lemma_split_join(seq![f, g, q], ',');
    assert((f + seq![','] + g + seq![','] + q)[f.len() as int] == ',');
    assert(first_bad_number(seq![f, g, q]) == None::<Seq<char>>) by {
        reveal_with_fuel(first_bad_number, 4);
        assert(seq![f, g, q].drop_first() =~= seq![g, q]);
        assert(seq![g, q].drop_first() =~= seq![q]);
        assert(seq![q].drop_first() =~= Seq::<Seq<char>>::empty());
    }
}

/// An `eq` band is `freq,gain,q` in that order, and bands separated by `;`
/// come out in the order written.
#[verifier::spinoff_prover]
#[verifier::rlimit(60)]
pub proof fn lemma_eq_bands_in_order(
    f0: Seq<char>,
    g0: Seq<char>,
    q0: Seq<char>,
    f1: Seq<char>,
    g1: Seq<char>,
    q1: Seq<char>,
)
    requires
        number_text(f0) && number_text(g0) && number_text(q0),
        number_text(f1) && number_text(g1) && number_text(q1),
        all_free_of(seq![f0, g0, q0, f1, g1, q1], ':'),
        all_free_of(seq![f0, g0, q0, f1, g1, q1], ';'),
        all_free_of(seq![f0, g0, q0, f1, g1, q1], ','),
    ensures
        effect_model(
            "eq"@ + seq![':'] + f0 + seq![','] + g0 + seq![','] + q0 + seq![';'] + f1 + seq![',']
                + g1 + seq![','] + q1,
        ) == Ok::<EffectModel, EffectErrorModel>(
            EffectModel::Eq { bands: seq![seq![f0, g0, q0], seq![f1, g1, q1]] },
        ),
{
    let all = seq![f0, g0, q0, f1, g1, q1];
    assert(all[0] == f0 && all[1] == g0 && all[2] == q0);
    assert(all[3] == f1 && all[4] == g1 && all[5] == q1);
    let b0 = f0 + seq![','] + g0 + seq![','] + q0;
    let b1 = f1 + seq![','] + g1 + seq![','] + q1;
    lemma_eq_band_ok(f0, g0, q0);
    lemma_eq_band_ok(f1, g1, q1);
    assert(free_of(b0, ':') && free_of(b0, ';'));
    assert(free_of(b1, ':') && free_of(b1, ';'));
    let rest = b0 + seq![';'] + b1;
    lemma_join_small(b0, b1, b1, b1, ';');
    lemma_split_join(seq![b0, b1], ';');
    assert(free_of(rest, ':'));
    lemma_eq_bands_two(b0, b1);
    let bands = seq![seq![f0, g0, q0], seq![f1, g1, q1]];
    assert(eq_bands(split_text(rest, ';')) == bands);
    assert(eq_band_error(bands) == None::<EffectErrorModel>) by {
        reveal_with_fuel(eq_band_error, 3);
        assert(bands.drop_first() =~= seq![seq![f1, g1, q1]]);
        assert(seq![seq![f1, g1, q1]].drop_first() =~= Seq::<Seq<Seq<char>>>::empty());
    }
    lemma_eq_model(rest);
    assert("eq"@ + seq![':'] + f0 + seq![','] + g0 + seq![','] + q0 + seq![';'] + f1 + seq![',']
        + g1 + seq![','] + q1 =~= "eq"@ + seq![':'] + rest);
}

/// Split `s` at every `sep` character.
fn split_str(s: &str, sep: char) -> (r: Vec<String>)
    ensures
        texts(r@) == split_text(s@, sep),
        r@.len() >= 1,
{
    let n = s.unicode_len();
    let mut pieces: Vec<String> = Vec::new();
    let mut start: usize = 0;
    let mut i: usize = 0;
    proof {
        lemma_split_text_nonempty(s@, sep);
        assert(s@.subrange(0, n as int) =~= s@);
    }
    while i < n
        invariant
            n == s@.len(),
            0 <= start <= i <= n,
            ({
                let r = split_text(s@.subrange(i as int, n as int), sep);
                &&& r.len() >= 1
                &&& split_text(s@, sep) == texts(pieces@) + seq![s@.subrange(start as int, i as int) + r[0]]
                    + r.drop_first()
            }),
        decreases n - i,
    {
        let c = s.get_char(i);
        proof {
            lemma_split_text_step(s@, sep, i as int);
        }
        let ghost r_next = split_text(s@.subrange(i + 1, n as int), sep);
        if c == sep {
            let piece = s.substring_char(start, i).to_owned();
            let ghost old_pieces = pieces@;
            pieces.push(piece);
            proof {
                assert(texts(pieces@) =~= texts(old_pieces).push(s@.subrange(start as int, i as int)));
                assert(s@.subrange(i + 1, i + 1) =~= Seq::<char>::empty());
                assert(split_text(s@, sep) =~= texts(pieces@) + seq![s@.subrange(i + 1, i + 1) + r_next[0]] + r_next.drop_first());
            }
            start = i + 1;
        } else {
            proof {
                assert(s@.subrange(start as int, i + 1) =~= s@.subrange(start as int, i as int).push(c));
                assert(s@.subrange(start as int, i as int) + (seq![c] + r_next[0]) =~= s@.subrange(start as int, i + 1) + r_next[0]);
                assert(r_next.update(0, seq![c] + r_next[0]).drop_first() =~= r_next.drop_first());
            }
        }
        i = i + 1;
    }
    let piece = s.substring_char(start, n).to_owned();
    let ghost old_pieces = pieces@;
    pieces.push(piece);
    proof {
        assert(s@.subrange(n as int, n as int) =~= Seq::<char>::empty());
        assert(split_text(Seq::<char>::empty(), sep) == seq![Seq::<char>::empty()]);
        assert(texts(pieces@) =~= texts(old_pieces).push(s@.subrange(start as int, n as int)));
        assert(s@.subrange(start as int, n as int) + Seq::<char>::empty() =~= s@.subrange(start as int, n as int));
        assert(split_text(s@, sep) =~= texts(pieces@));
    }
    pieces
}

/// The first piece of a split ends before a separator, when there is one.
proof fn lemma_split_text_first(s: Seq<char>, sep: char)
    ensures
        split_text(s, sep).len() >= 2 ==> split_text(s, sep)[0].len() < s.len() && s[split_text(
            s,
            sep,
        )[0].len() as int] == sep && split_text(s, sep)[0] == s.subrange(
            0,
            split_text(s, sep)[0].len() as int,
        ),
    decreases s.len(),
{
    if s.len() > 0 {
        lemma_split_text_first(s.drop_first(), sep);
        lemma_split_text_nonempty(s.drop_first(), sep);
        let rest = split_text(s.drop_first(), sep);
        if s[0] != sep && rest.len() >= 2 {
            assert(split_text(s, sep)[0] =~= s.subrange(0, rest[0].len() as int + 1));
        }
    }
}

/// Text equality of two string slices.
fn str_eq(a: &str, b: &str) -> (r: bool)
    ensures
        r == (a@ == b@),
{
    let r = bytes_eq(a.as_bytes(), b.as_bytes());
    proof {
        if r {
            lemma_same_bytes_same_text(a, b);
        } else {
            lemma_same_text_same_bytes(a, b);
        }
    }
    r
}

/// The `i`-th field, if present.
fn field_at_exec(fields: &Vec<String>, i: usize) -> (r: Option<String>)
    ensures
        opt_text(r) == field_at(texts(fields@), i as int),
{
    if i < fields.len() {
        Some(fields[i].clone())
    } else {
        None
    }
}

/// Split the non-empty pieces at their commas.
fn split_bands(pieces: &Vec<String>) -> (r: Vec<Vec<String>>)
    ensures
        Seq::new(r@.len(), |i: int| texts(r@[i]@)) == eq_bands(texts(pieces@)),
{
    let mut bands: Vec<Vec<String>> = Vec::new();
    let mut k: usize = 0;
    while k < pieces.len()
        invariant
            0 <= k <= pieces@.len(),
            Seq::new(bands@.len(), |i: int| texts(bands@[i]@)) == eq_bands(
                texts(pieces@).subrange(0, k as int),
            ),
        decreases pieces@.len() - k,
    {
        let ghost before = Seq::new(bands@.len(), |i: int| texts(bands@[i]@));
        let ghost upto = texts(pieces@).subrange(0, k + 1);
        assert(upto.drop_last() =~= texts(pieces@).subrange(0, k as int));
        assert(upto.last() == pieces@[k as int]@);
        let piece = pieces[k].as_str();
        if piece.unicode_len() > 0 {
            let band = split_str(piece, ',');
            bands.push(band);
            assert(Seq::new(bands@.len(), |i: int| texts(bands@[i]@)) =~= before.push(
                split_text(pieces@[k as int]@, ','),
            ));
        } else {
            assert(Seq::new(bands@.len(), |i: int| texts(bands@[i]@)) =~= before);
        }
        k = k + 1;
    }
    assert(texts(pieces@).subrange(0, pieces@.len() as int) =~= texts(pieces@));
    bands
}

/// The position of the first field that is not a number, if any.
fn first_bad_number_exec(fields: &Vec<String>) -> (r: Option<usize>)
    ensures
        match r {
            Some(k) => k < fields@.len() && first_bad_number(texts(fields@)) == Some(fields@[k as int]@),
            None => first_bad_number(texts(fields@)) == None::<Seq<char>>,
        },
{
    let ghost m = texts(fields@);
    let mut k: usize = 0;
    assert(m.subrange(0, m.len() as int) =~= m);
    while k < fields.len()
        invariant
            m == texts(fields@),
            0 <= k <= fields@.len(),
            first_bad_number(m) == first_bad_number(m.subrange(k as int, m.len() as int)),
        decreases fields@.len() - k,
    {
        let ghost tail = m.subrange(k as int, m.len() as int);
        assert(tail[0] == fields@[k as int]@);
        assert(tail.drop_first() =~= m.subrange(k + 1, m.len() as int));
        if !is_number(fields[k].as_str()) {
            return Some(k);
        }
        k = k + 1;
    }
    assert(m.subrange(k as int, m.len() as int) =~= Seq::<Seq<char>>::empty());
    None
}

/// The error of the first bad `eq` band, if any (see [`eq_band_error`]).
fn eq_band_error_exec(bands: &Vec<Vec<String>>) -> (r: Option<EffectSpecError>)
    ensures
        ({
            let m = Seq::new(bands@.len(), |i: int| texts(bands@[i]@));
            match r {
                Some(e) => eq_band_error(m) == Some(e.model()),
                None => eq_band_error(m) == None::<EffectErrorModel>,
            }
        }),
{
    let ghost m = Seq::new(bands@.len(), |i: int| texts(bands@[i]@));
    let mut k: usize = 0;
    assert(m.subrange(0, m.len() as int) =~= m);
    while k < bands.len()
        invariant
            m == Seq::new(bands@.len(), |i: int| texts(bands@[i]@)),
            0 <= k <= bands@.len(),
            eq_band_error(m) == eq_band_error(m.subrange(k as int, m.len() as int)),
        decreases bands@.len() - k,
    {
        let ghost tail = m.subrange(k as int, m.len() as int);
        assert(tail[0] == m[k as int]);
        assert(tail.drop_first() =~= m.subrange(k + 1, m.len() as int));
        match first_bad_number_exec(&bands[k]) {
            Some(j) => {
                return Some(EffectSpecError::BadNumber(bands[k][j].clone()));
            },
            None => {},
        }
        if bands[k].len() != 3 {
            return Some(EffectSpecError::EqBandFieldCount(bands[k].clone()));
        }
        k = k + 1;
    }
    assert(m.subrange(k as int, m.len() as int) =~= Seq::<Seq<Seq<char>>>::empty());
    None
}

impl EffectSpec {
    /// Parse an effect spec (see the module documentation for the forms).
    pub fn parse(spec: &str) -> (r: Result<EffectSpec, EffectSpecError>)
        ensures
            match r {
                Ok(e) => effect_model(spec@) == Ok::<EffectModel, EffectErrorModel>(e.model()),
                Err(e) => effect_model(spec@) == Err::<EffectModel, EffectErrorModel>(e.model()),
            },
    {
        let pieces = split_str(spec, ':');
        if pieces.len() < 2 {
            return Err(EffectSpecError::MissingKind);
        }
        proof {
            lemma_split_text_first(spec@, ':');
        }
        let kind = pieces[0].as_str();
        let klen = kind.unicode_len();
        let total = spec.unicode_len();
        let rest = spec.substring_char(klen + 1, total);
        let fields = split_str(rest, ':');
        let ghost fs = texts(fields@);
        assert(fs[0] == fields@[0]@);
        if str_eq(kind, "biquad") {
            let name = fields[0].as_str();
            match parse_biquad_type(name) {
                None => Err(EffectSpecError::UnknownBiquadType(fields[0].clone())),
                Some(t) => {
                    if fields.len() < 2 {
                        Err(EffectSpecError::MissingField(1))
                    } else {
                        assert(fs[1] == fields@[1]@);
                        Ok(
                            EffectSpec::Biquad {
                                kind: t,
                                freq: fields[1].clone(),
                                q: field_at_exec(&fields, 2),
                                gain: field_at_exec(&fields, 3),
                            },
                        )
                    }
                },
            }
        } else if str_eq(kind, "waveshaper") {
            let name = fields[0].as_str();
            let (curve, taken): (CurveSpec, usize) = if str_eq(name, "tanh") {
                (CurveSpec::Tanh, 1)
            } else if str_eq(name, "hardclip") {
                (CurveSpec::HardClip, 1)
            } else if str_eq(name, "cubic") {
                (CurveSpec::Cubic, 1)
            } else if str_eq(name, "poly") {
                if fields.len() < 2 {
                    return Err(EffectSpecError::MissingPolyCoefficients);
                }
                assert(fs[1] == fields@[1]@);
                let coefficients = split_str(fields[1].as_str(), ',');
                if let Some(j) = first_bad_number_exec(&coefficients) {
                    return Err(EffectSpecError::BadNumber(coefficients[j].clone()));
                }
                if coefficients.len() != 4 {
                    return Err(EffectSpecError::PolyCoefficientCount(coefficients.len()));
                }
                (CurveSpec::Poly(coefficients), 2)
            } else {
                return Err(EffectSpecError::UnknownCurve(fields[0].clone()));
            };
            assert(taken == curve_field_count(curve.model()));
            Ok(
                EffectSpec::Waveshaper {
                    curve,
                    drive: field_at_exec(&fields, taken),
                    mix: field_at_exec(&fields, taken + 1),
                },
            )
        } else if str_eq(kind, "delay") {
            Ok(
                EffectSpec::Delay {
                    seconds: fields[0].clone(),
                    feedback: field_at_exec(&fields, 1),
                    mix: field_at_exec(&fields, 2),
                },
            )
        } else if str_eq(kind, "reverb") {
            Ok(EffectSpec::Reverb { decay: fields[0].clone(), wet: field_at_exec(&fields, 1) })
        } else if str_eq(kind, "eq") {
            let parts = split_str(rest, ';');
            let bands = split_bands(&parts);
            if let Some(e) = eq_band_error_exec(&bands) {
                return Err(e);
            }
            if bands.len() == 0 {
                Err(EffectSpecError::NoEqBand)
            } else {
                let ghost m = Seq::new(bands@.len(), |i: int| texts(bands@[i]@));
                let r = EffectSpec::Eq { bands };
                assert(r.model() == EffectModel::Eq { bands: m });
                Ok(r)
            }
        } else {
            Err(EffectSpecError::UnknownEffect(pieces[0].clone()))
        }
    }
}

/// Spectral window choice on the command line.
#[derive(Clone, Copy, Debug, PartialEq, Eq)]
pub enum WindowArg {
    /// Hann (raised cosine).
    Hann,
    /// Hamming.
    Hamming,
    /// Blackman.
    Blackman,
}

impl WindowArg {
    /// The window kind this argument selects.
    pub fn to_window(self) -> (r: WindowType)
        ensures
            self == WindowArg::Hann ==> r == WindowType::Hann,
            self == WindowArg::Hamming ==> r == WindowType::Hamming,
            self == WindowArg::Blackman ==> r == WindowType::Blackman,
    {
        match self {
            WindowArg::Hann => WindowType::Hann,
            WindowArg::Hamming => WindowType::Hamming,
            WindowArg::Blackman => WindowType::Blackman,
        }
    }
}

} // verus!
