//! Schedule records and their validation rules.
//!
//! A schedule is a persisted `(user, cron, url)` triple. Its invariants: the
//! cron expression must parse, and the url must parse as an absolute URL.
//! Both judgements are made by their outside parsers, reached through
//! trusted wrappers; everything built on top of them is verified.

use vstd::prelude::*;
use vstd::string::*;

verus! {

/// Validity of a cron expression, as decided by the cron crate's parser.
/// The parse depends on the expression string alone.
pub uninterp spec fn cron_ok(s: Seq<char>) -> bool;

/// Validity of an absolute URL, as decided by the url crate's parser. The
/// parse depends on the URL string alone.
pub uninterp spec fn url_ok(s: Seq<char>) -> bool;

/// Relies on `cron::Schedule::from_str`: whether `val` parses as a cron
/// expression. The parser reads nothing but the string, so the outcome is a
/// function of `val` alone.
#[verifier::external_body]
pub(crate) fn cron_expr_ok(val: &str) -> (r: bool)
    ensures
        r == cron_ok(val@),
{
    <cron::Schedule as std::str::FromStr>::from_str(val).is_ok()
}

/// Relies on `url::Url::parse`: whether `val` parses as an absolute URL.
/// The parser reads nothing but the string, so the outcome is a function of
/// `val` alone.
#[verifier::external_body]
pub(crate) fn url_parse_ok(val: &str) -> (r: bool)
    ensures
        r == url_ok(val@),
{
    url::Url::parse(val).is_ok()
}

/// Validator: accepts exactly the valid cron expressions.
pub fn is_cron(val: &str) -> (r: Result<(), String>)
    ensures
        (r is Ok) == cron_ok(val@),
{
    if cron_expr_ok(val) {
        Ok(())
    } else {
        Err(String::from_str("invalid cron expression"))
    }
}

/// Validator: accepts exactly the empty string and the valid URLs.
pub fn is_url_or_empty(val: &str) -> (r: Result<(), String>)
    ensures
        (r is Ok) == (val@.len() == 0 || url_ok(val@)),
{
    if val.unicode_len() == 0 {
        return Ok(());
    }
    if url_parse_ok(val) {
        Ok(())
    } else {
        Err(String::from_str("invalid url"))
    }
}

/// A decimal digit.
pub open spec fn is_digit(c: char) -> bool {
    '0' <= c && c <= '9'
}

/// The numeric value of a string of decimal digits.
pub open spec fn digits_value(s: Seq<char>) -> int
    decreases s.len(),
{
    if s.len() == 0 {
        0
    } else {
        digits_value(s.drop_last()) * 10 + (s.last() as int - '0' as int)
    }
}

/// What a job-id argument must look like: one or more decimal digits whose
/// value fits in 32 bits.
pub open spec fn is_u32_decimal(s: Seq<char>) -> bool {
    s.len() > 0 && (forall|i: int| 0 <= i < s.len() ==> is_digit(s[i])) && digits_value(s)
        <= u32::MAX
}

proof fn lemma_digits_value_nonneg(s: Seq<char>)
    requires
        forall|i: int| 0 <= i < s.len() ==> is_digit(s[i]),
    ensures
        digits_value(s) >= 0,
    decreases s.len(),
{
    if s.len() > 0 {
        lemma_digits_value_nonneg(s.drop_last());
    }
}

proof fn lemma_digits_value_prefix_le(s: Seq<char>, j: int)
    requires
        0 <= j <= s.len(),
        forall|i: int| 0 <= i < s.len() ==> is_digit(s[i]),
    ensures
        digits_value(s.subrange(0, j)) <= digits_value(s),
    decreases s.len() - j,
{
    if j == s.len() {
        assert(s.subrange(0, j) =~= s);
    } else {
        let t = s.subrange(0, j + 1);
        assert(t.drop_last() =~= s.subrange(0, j));
        lemma_digits_value_nonneg(s.subrange(0, j));
        assert(digits_value(t) == digits_value(s.subrange(0, j)) * 10 + (t.last() as int
            - '0' as int));
        assert(is_digit(s[j]));
        lemma_digits_value_prefix_le(s, j + 1);
    }
}

/// Parses a string of decimal digits as a 32-bit number; rejects anything
/// else, including values out of range.
pub fn parse_u32(s: &str) -> (r: Option<u32>)
    ensures
        (r is Some) == is_u32_decimal(s@),
        r matches Some(v) ==> v == digits_value(s@),
{
    let n = s.unicode_len();
    if n == 0 {
        return None;
    }
    let mut acc: u32 = 0;
    let mut i: usize = 0;
    while i < n
        invariant
            i <= n,
            n == s@.len(),
            forall|j: int| 0 <= j < i ==> is_digit(s@[j]),
            acc == digits_value(s@.subrange(0, i as int)),
        decreases n - i,
    {
        let c = s.get_char(i);
        if c < '0' || c > '9' {
            return None;
        }
        let d: u32 = (c as u32) - 48;
        proof {
            assert(s@.subrange(0, i + 1).drop_last() =~= s@.subrange(0, i as int));
            assert(s@.subrange(0, i + 1).last() == s@[i as int]);
        }
        if acc > (u32::MAX - d) / 10 {
            proof {
                assert(digits_value(s@.subrange(0, i + 1)) > u32::MAX);
                if forall|k: int| 0 <= k < s@.len() ==> is_digit(s@[k]) {
                    lemma_digits_value_prefix_le(s@, i + 1);
                }
            }
            return None;
        }
        acc = acc * 10 + d;
        i += 1;
    }
    proof {
        assert(s@.subrange(0, n as int) =~= s@);
    }
    Some(acc)
}

/// Validator: accepts exactly the strings that denote a 32-bit job id.
pub fn is_number(val: &str) -> (r: Result<(), String>)
    ensures
        (r is Ok) == is_u32_decimal(val@),
{
    match parse_u32(val) {
        Some(_) => Ok(()),
        None => Err(String::from_str("invalid job id")),
    }
}

/// The lower-case code point of an ASCII letter; other characters are left
/// as they are.
pub open spec fn lower_code(c: char) -> int {
    if 'A' <= c && c <= 'Z' {
        c as int + 32
    } else {
        c as int
    }
}

/// Equality of two strings up to ASCII case.
pub open spec fn eq_ignore_case(a: Seq<char>, b: Seq<char>) -> bool {
    a.len() == b.len() && forall|i: int| 0 <= i < a.len() ==> lower_code(a[i]) == lower_code(b[i])
}

/// Whether two strings agree up to ASCII case.
pub fn eq_ignore_case_str(a: &str, b: &str) -> (r: bool)
    ensures
        r == eq_ignore_case(a@, b@),
{
    let an = a.unicode_len();
    let bn = b.unicode_len();
    if an != bn {
        return false;
    }
    let mut i: usize = 0;
    while i < an
        invariant
            i <= an,
            an == a@.len(),
            an == b@.len(),
            forall|j: int| 0 <= j < i ==> lower_code(a@[j]) == lower_code(b@[j]),
        decreases an - i,
    {
        let ca = a.get_char(i);
        let cb = b.get_char(i);
        let la: u32 = if ca >= 'A' && ca <= 'Z' {
            ca as u32 + 32
        } else {
            ca as u32
        };
        let lb: u32 = if cb >= 'A' && cb <= 'Z' {
            cb as u32 + 32
        } else {
            cb as u32
        };
        if la != lb {
            return false;
        }
        i += 1;
    }
    true
}

/// The built-in import schedules a user can name instead of writing a cron
/// expression.
#[derive(Clone, Copy, PartialEq, Eq, Structural, Debug)]
pub enum DefaultCron {
    Hourly,
    Daily,
    Weekly,
    Monthly,
}

impl DefaultCron {
    /// The cron expression of this preset.
    pub fn to_schedule(&self) -> (r: String)
        ensures
            *self == DefaultCron::Hourly ==> r@ == "@hourly"@,
            *self == DefaultCron::Daily ==> r@ == "@daily"@,
            *self == DefaultCron::Weekly ==> r@ == "@weekly"@,
            *self == DefaultCron::Monthly ==> r@ == "@monthly"@,
    {
        match self {
            DefaultCron::Hourly => String::from_str("@hourly"),
            DefaultCron::Daily => String::from_str("@daily"),
            DefaultCron::Weekly => String::from_str("@weekly"),
            DefaultCron::Monthly => String::from_str("@monthly"),
        }
    }

    /// The preset named by `s`, compared without regard to ASCII case;
    /// `None` when `s` names none of them.
    pub fn from_name(s: &str) -> (r: Option<DefaultCron>)
        ensures
            r == Some(DefaultCron::Hourly) <==> eq_ignore_case(s@, "hourly"@),
            r == Some(DefaultCron::Daily) <==> eq_ignore_case(s@, "daily"@),
            r == Some(DefaultCron::Weekly) <==> eq_ignore_case(s@, "weekly"@),
            r == Some(DefaultCron::Monthly) <==> eq_ignore_case(s@, "monthly"@),
            r is None <==> !eq_ignore_case(s@, "hourly"@) && !eq_ignore_case(s@, "daily"@)
                && !eq_ignore_case(s@, "weekly"@) && !eq_ignore_case(s@, "monthly"@),
    {
        if eq_ignore_case_str(s, "hourly") {
            proof {
                lemma_distinct_preset_names();
            }
            Some(DefaultCron::Hourly)
        } else if eq_ignore_case_str(s, "daily") {
            proof {
                lemma_distinct_preset_names();
            }
            Some(DefaultCron::Daily)
        } else if eq_ignore_case_str(s, "weekly") {
            proof {
                lemma_distinct_preset_names();
            }
            Some(DefaultCron::Weekly)
        } else if eq_ignore_case_str(s, "monthly") {
            proof {
                lemma_distinct_preset_names();
            }
            Some(DefaultCron::Monthly)
        } else {
            None
        }
    }
}

proof fn lemma_distinct_preset_names()
    ensures
        !eq_ignore_case("hourly"@, "daily"@),
        !eq_ignore_case("hourly"@, "weekly"@),
        !eq_ignore_case("hourly"@, "monthly"@),
        !eq_ignore_case("daily"@, "weekly"@),
        !eq_ignore_case("daily"@, "monthly"@),
        !eq_ignore_case("weekly"@, "monthly"@),
{
    reveal_strlit("hourly");
    reveal_strlit("daily");
    reveal_strlit("weekly");
    reveal_strlit("monthly");
    assert(lower_code("hourly"@[0]) != lower_code("weekly"@[0]));
}

/// Why a schedule was refused.
#[derive(Clone, Copy, PartialEq, Eq, Structural, Debug)]
pub enum ValidationError {
    BadCron,
    BadUrl,
}

impl ValidationError {
    /// A short description, for the front end to print.
    pub fn message(&self) -> (r: &'static str)
    {
        match self {
            ValidationError::BadCron => "failed to parse cron expression",
            ValidationError::BadUrl => "failed to parse url",
        }
    }
}

/// A schedule record: a recurring import job for `user` from `url`, on the
/// cron expression `cron`. `id` is assigned by the store and absent until
/// the record is persisted.
#[derive(Debug)]
pub struct Schedule {
    pub id: Option<u32>,
    pub user: String,
    pub cron: String,
    pub url: String,
}

impl Schedule {
    /// The schedule's invariant: both its cron expression and its URL parse.
    pub open spec fn valid(&self) -> bool {
        cron_ok(self.cron@) && url_ok(self.url@)
    }

    /// Builds a schedule after checking the invariants: the cron expression
    /// and the URL must parse. A bad cron expression is reported ahead of a
    /// bad URL.
    pub fn new(id: Option<u32>, user: &str, cron: &str, url: &str) -> (r: Result<
        Schedule,
        ValidationError,
    >)
        ensures
            (r is Ok) == (cron_ok(cron@) && url_ok(url@)),
            r matches Ok(s) ==> s.id == id && s.user@ == user@ && s.cron@ == cron@ && s.url@
                == url@ && s.valid(),
            (r matches Err(e) && e == ValidationError::BadCron) <==> !cron_ok(cron@),
            (r matches Err(e) && e == ValidationError::BadUrl) <==> (cron_ok(cron@) && !url_ok(
                url@,
            )),
    {
        if !cron_expr_ok(cron) {
            return Err(ValidationError::BadCron);
        }
        if !url_parse_ok(url) {
            return Err(ValidationError::BadUrl);
        }
        Ok(
            Schedule {
                id,
                user: user.to_owned(),
                cron: cron.to_owned(),
                url: url.to_owned(),
            },
        )
    }

    /// One line describing the schedule, for listings and logs.
    pub fn display_string(&self) -> (r: String)
        ensures
            self.id matches Some(i) ==> r@ == "[id: "@ + dec_digits(i as int) + ", user: "@
                + self.user@ + ", cron: "@ + self.cron@ + ", url: "@ + self.url@ + "]"@,
            self.id is None ==> r@ == "[user: "@ + self.user@ + ", cron: "@ + self.cron@
                + ", url: "@ + self.url@ + "]"@,
    {
        let tail = String::from_str(", cron: ")
            .concat(self.cron.as_str())
            .concat(", url: ")
            .concat(self.url.as_str())
            .concat("]");
        match self.id {
            Some(i) => {
                let r = String::from_str("[id: ")
                    .concat(u32_to_string(i).as_str())
                    .concat(", user: ")
                    .concat(self.user.as_str())
                    .concat(tail.as_str());
                proof {
                    assert(r@ =~= "[id: "@ + dec_digits(i as int) + ", user: "@ + self.user@
                        + ", cron: "@ + self.cron@ + ", url: "@ + self.url@ + "]"@);
                }
                r
            },
            None => {
                let r = String::from_str("[user: ").concat(self.user.as_str()).concat(
                    tail.as_str(),
                );
                proof {
                    assert(r@ =~= "[user: "@ + self.user@ + ", cron: "@ + self.cron@ + ", url: "@
                        + self.url@ + "]"@);
                }
                r
            },
        }
    }
}


/// The decimal digit character of `d`.
pub open spec fn digit_of(d: int) -> char {
    if d == 0 {
        '0'
    } else if d == 1 {
        '1'
    } else if d == 2 {
        '2'
    } else if d == 3 {
        '3'
    } else if d == 4 {
        '4'
    } else if d == 5 {
        '5'
    } else if d == 6 {
        '6'
    } else if d == 7 {
        '7'
    } else if d == 8 {
        '8'
    } else {
        '9'
    }
}

/// The decimal digits of a nonnegative number, most significant first.
pub open spec fn dec_digits(n: int) -> Seq<char>
    decreases n,
{
    if n < 10 {
        seq![digit_of(n)]
    } else {
        dec_digits(n / 10).push(digit_of(n % 10))
    }
}

fn digit_str(d: u32) -> (r: &'static str)
    requires
        d < 10,
    ensures
        r@ == seq![digit_of(d as int)],
{
    let r = match d {
        0 => "0",
        1 => "1",
        2 => "2",
        3 => "3",
        4 => "4",
        5 => "5",
        6 => "6",
        7 => "7",
        8 => "8",
        _ => "9",
    };
    proof {
        reveal_strlit("0");
        reveal_strlit("1");
        reveal_strlit("2");
        reveal_strlit("3");
        reveal_strlit("4");
        reveal_strlit("5");
        reveal_strlit("6");
        reveal_strlit("7");
        reveal_strlit("8");
        reveal_strlit("9");
        assert(r@ =~= seq![digit_of(d as int)]);
    }
    r
}

/// The decimal form of a 32-bit number.
pub fn u32_to_string(n: u32) -> (r: String)
    ensures
        r@ == dec_digits(n as int),
    decreases n,
{
    if n < 10 {
        String::from_str(digit_str(n))
    } else {
        let prefix = u32_to_string(n / 10);
        let r = prefix.concat(digit_str(n % 10));
        proof {
            assert(r@ =~= dec_digits(n as int));
        }
        r
    }
}

} // verus!
