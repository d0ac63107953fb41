//! Choice of the integration method.
use vstd::prelude::*;

verus! {

/// The integration scheme used to advance the state by one step.
#[derive(Debug, Clone, Copy, PartialEq, Eq, Structural)]
pub enum Method {
    /// Classical 4th-order Runge-Kutta.
    Rk4,
    /// Explicit (forward) Euler, first order.
    Euler,
}

/// ASCII lower-casing of one character: 'A'..='Z' map to 'a'..='z',
/// everything else is unchanged.
pub open spec fn ascii_lower(c: char) -> char {
    if 'A' <= c && c <= 'Z' {
        ((c as u32) + 32) as char
    } else {
        c
    }
}

/// ASCII lower-casing of a whole string.
pub open spec fn ascii_lower_seq(s: Seq<char>) -> Seq<char> {
    s.map_values(|c: char| ascii_lower(c))
}

/// The message of a refused integrator name, given its lower-cased form.
pub open spec fn unknown_method_message(lower: Seq<char>) -> Seq<char> {
    "unknown integrator '"@ + lower + "' (use rk4 or euler)"@
}

/// What parsing an integrator name yields: the name is compared without
/// regard to ASCII case.
pub open spec fn spec_parse_method(s: Seq<char>) -> Result<Method, Seq<char>> {
    let lower = ascii_lower_seq(s);
    if lower == "rk4"@ {
        Ok(Method::Rk4)
    } else if lower == "euler"@ {
        Ok(Method::Euler)
    } else {
        Err(unknown_method_message(lower))
    }
}

/// `str::to_ascii_lowercase`: each ASCII upper-case letter is mapped to its
/// lower-case form, every other character is kept.
#[verifier::external_body]
fn to_ascii_lowercase(s: &str) -> (r: String)
    ensures
        r@ == ascii_lower_seq(s@),
{
    s.to_ascii_lowercase()
}

impl Method {
    /// Parses an integrator name, `rk4` or `euler`, in any ASCII case.
    pub fn parse(s: &str) -> (r: Result<Method, String>)
        ensures
            match r {
                Ok(m) => spec_parse_method(s@) == Ok::<Method, Seq<char>>(m),
                Err(e) => spec_parse_method(s@) == Err::<Method, Seq<char>>(e@),
            },
    {
        let lower = to_ascii_lowercase(s);
        let rk4 = String::from_str("rk4");
        let euler = String::from_str("euler");
        if lower == rk4 {
            Ok(Method::Rk4)
        } else if lower == euler {
            Ok(Method::Euler)
        } else {
            let mut msg = String::from_str("unknown integrator '");
            msg.append(lower.as_str());
            msg.append("' (use rk4 or euler)");
            Err(msg)
        }
    }

    /// The display name of the method, as the run summary prints it.
    pub fn name(&self) -> (r: &'static str)
        ensures
            r@ == spec_method_name(*self),
    {
        match self {
            Method::Rk4 => "RK4",
            Method::Euler => "Euler",
        }
    }
}

/// The display name of each method.
pub open spec fn spec_method_name(m: Method) -> Seq<char> {
    match m {
        Method::Rk4 => "RK4"@,
        Method::Euler => "Euler"@,
    }
}

impl std::str::FromStr for Method {
    type Err = String;

    /// Same as [`Method::parse`].
    fn from_str(s: &str) -> (r: Result<Method, String>)
        ensures
            match r {
                Ok(m) => spec_parse_method(s@) == Ok::<Method, Seq<char>>(m),
                Err(e) => spec_parse_method(s@) == Err::<Method, Seq<char>>(e@),
            },
    {
        Method::parse(s)
    }
}

/// Parsing is blind to ASCII case: two names that agree once lower-cased
/// parse to the same result.
pub proof fn lemma_parse_ignores_case(s: Seq<char>, t: Seq<char>)
    requires
        ascii_lower_seq(s) == ascii_lower_seq(t),
    ensures
        spec_parse_method(s) == spec_parse_method(t),
{
}

proof fn lemma_lower_char(c: char, x: char, upper: char)
    requires
        'a' <= x <= 'z',
        upper as int == x as int - 32,
    ensures
        (ascii_lower(c) == x) <==> (c == x || c == upper),
{
    if 'A' <= c && c <= 'Z' {
        assert(ascii_lower(c) as int == c as int + 32);
    }
}

proof fn lemma_lower_digit(c: char)
    ensures
        (ascii_lower(c) == '4') <==> c == '4',
{
    if 'A' <= c && c <= 'Z' {
        assert(ascii_lower(c) as int == c as int + 32);
    }
}

/// Exactly two names are accepted, each in any ASCII case: the three letters
/// r, k, 4 name RK4, the five letters e, u, l, e, r name Euler. Every other
/// name is refused with the message that quotes it lower-cased.
pub proof fn lemma_parse_accepts_only_the_two_names(s: Seq<char>)
    ensures
        (spec_parse_method(s) == Ok::<Method, Seq<char>>(Method::Rk4)) <==> (s.len() == 3 && (s[0] == 'r'
            || s[0] == 'R') && (s[1] == 'k' || s[1] == 'K') && s[2] == '4'),
        (spec_parse_method(s) == Ok::<Method, Seq<char>>(Method::Euler)) <==> (s.len() == 5 && (s[0] == 'e'
            || s[0] == 'E') && (s[1] == 'u' || s[1] == 'U') && (s[2] == 'l' || s[2] == 'L') && (s[3] == 'e'
            || s[3] == 'E') && (s[4] == 'r' || s[4] == 'R')),
        spec_parse_method(s) is Err ==> spec_parse_method(s) == Err::<Method, Seq<char>>(
            "unknown integrator '"@ + ascii_lower_seq(s) + "' (use rk4 or euler)"@,
        ),
{
    reveal_strlit("rk4");
    reveal_strlit("euler");
    let lower = ascii_lower_seq(s);
    assert(lower.len() == s.len());
    if s.len() == 3 {
        lemma_lower_char(s[0], 'r', 'R');
        lemma_lower_char(s[1], 'k', 'K');
        lemma_lower_digit(s[2]);
        assert(lower[0] == ascii_lower(s[0]) && lower[1] == ascii_lower(s[1]) && lower[2] == ascii_lower(s[2]));
        if (s[0] == 'r' || s[0] == 'R') && (s[1] == 'k' || s[1] == 'K') && s[2] == '4' {
            assert(lower =~= "rk4"@);
        } else {
            assert(lower != "rk4"@) by {
                if lower == "rk4"@ {
                    assert(lower[0] == 'r' && lower[1] == 'k' && lower[2] == '4');
                }
            }
        }
    }
    if s.len() == 5 {
        lemma_lower_char(s[0], 'e', 'E');
        lemma_lower_char(s[1], 'u', 'U');
        lemma_lower_char(s[2], 'l', 'L');
        lemma_lower_char(s[3], 'e', 'E');
        lemma_lower_char(s[4], 'r', 'R');
        assert(lower[0] == ascii_lower(s[0]) && lower[1] == ascii_lower(s[1]) && lower[2] == ascii_lower(s[2])
            && lower[3] == ascii_lower(s[3]) && lower[4] == ascii_lower(s[4]));
        if (s[0] == 'e' || s[0] == 'E') && (s[1] == 'u' || s[1] == 'U') && (s[2] == 'l' || s[2] == 'L')
            && (s[3] == 'e' || s[3] == 'E') && (s[4] == 'r' || s[4] == 'R') {
            assert(lower =~= "euler"@);
        } else {
            assert(lower != "euler"@) by {
                if lower == "euler"@ {
                    assert(lower[0] == 'e' && lower[1] == 'u' && lower[2] == 'l' && lower[3] == 'e'
                        && lower[4] == 'r');
                }
            }
        }
    }
}

/// The display name of every method parses back to that method.
pub proof fn lemma_name_parses_back(m: Method)
    ensures
        spec_parse_method(spec_method_name(m)) == Ok::<Method, Seq<char>>(m),
{
    reveal_strlit("RK4");
    reveal_strlit("rk4");
    reveal_strlit("Euler");
    reveal_strlit("euler");
    match m {
        Method::Rk4 => {
            assert(ascii_lower_seq("RK4"@) =~= "rk4"@);
        },
        Method::Euler => {
            assert(ascii_lower_seq("Euler"@) =~= "euler"@);
        },
    }
}

} // verus!
