//! The closed set of HTTP request methods and their string conversions.

use vstd::prelude::*;

verus! {

/// One of the nine conventional HTTP request methods.
///
/// A `Method` is the key under which a handler value is registered in the
/// routing tree: each leaf of the tree maps methods to handler values.
#[derive(Clone, Copy, Debug, PartialEq, Eq, Hash, Structural)]
pub enum Method {
    Get,
    Post,
    Head,
    Put,
    Patch,
    Delete,
    Options,
    Connect,
    Trace,
}

/// Maps an ASCII lower-case letter to its upper-case form and leaves every
/// other character unchanged.
pub open spec fn upper_char(c: char) -> char {
    match c {
        'a' => 'A',
        'b' => 'B',
        'c' => 'C',
        'd' => 'D',
        'e' => 'E',
        'f' => 'F',
        'g' => 'G',
        'h' => 'H',
        'i' => 'I',
        'j' => 'J',
        'k' => 'K',
        'l' => 'L',
        'm' => 'M',
        'n' => 'N',
        'o' => 'O',
        'p' => 'P',
        'q' => 'Q',
        'r' => 'R',
        's' => 'S',
        't' => 'T',
        'u' => 'U',
        'v' => 'V',
        'w' => 'W',
        'x' => 'X',
        'y' => 'Y',
        'z' => 'Z',
        _ => c,
    }
}

/// The character-wise ASCII upper-casing of a string.
pub open spec fn upper_seq(s: Seq<char>) -> Seq<char> {
    Seq::new(s.len(), |i: int| upper_char(s[i]))
}

/// The method a name denotes. Names are compared ASCII-case-insensitively
/// against the canonical verbs; an unrecognized name falls back to `Get`.
pub open spec fn method_of_name(s: Seq<char>) -> Method {
    let u = upper_seq(s);
    if u == "GET"@ {
        Method::Get
    } else if u == "POST"@ {
        Method::Post
    } else if u == "HEAD"@ {
        Method::Head
    } else if u == "PUT"@ {
        Method::Put
    } else if u == "PATCH"@ {
        Method::Patch
    } else if u == "DELETE"@ {
        Method::Delete
    } else if u == "OPTIONS"@ {
        Method::Options
    } else if u == "CONNECT"@ {
        Method::Connect
    } else if u == "TRACE"@ {
        Method::Trace
    } else {
        Method::Get
    }
}

/// Maps an ASCII lower-case letter to its upper-case form and leaves every
/// other character unchanged.
fn to_upper(c: char) -> (r: char)
    ensures
        r == upper_char(c),
{
    match c {
        'a' => 'A',
        'b' => 'B',
        'c' => 'C',
        'd' => 'D',
        'e' => 'E',
        'f' => 'F',
        'g' => 'G',
        'h' => 'H',
        'i' => 'I',
        'j' => 'J',
        'k' => 'K',
        'l' => 'L',
        'm' => 'M',
        'n' => 'N',
        'o' => 'O',
        'p' => 'P',
        'q' => 'Q',
        'r' => 'R',
        's' => 'S',
        't' => 'T',
        'u' => 'U',
        'v' => 'V',
        'w' => 'W',
        'x' => 'X',
        'y' => 'Y',
        'z' => 'Z',
        _ => c,
    }
}

/// Compares a string ASCII-case-insensitively against an (upper-case) token.
fn str_eq_upper(s: &str, t: &str) -> (r: bool)
    ensures
        r == (upper_seq(s@) == t@),
{
    let n = s.unicode_len();
    let nt = t.unicode_len();
    if n != nt {
        proof {
            assert(upper_seq(s@).len() != t@.len());
        }
        return false;
    }
    let mut i: usize = 0;
    while i < n
        invariant
            i <= n,
            n == s@.len(),
            n == t@.len(),
            forall|j: int| 0 <= j < i ==> upper_char(s@[j]) == t@[j],
        decreases n - i,
    {
        let c = to_upper(s.get_char(i));
        let d = t.get_char(i);
        if c != d {
            proof {
                assert(upper_seq(s@)[i as int] != t@[i as int]);
            }
            return false;
        }
        i = i + 1;
    }
    proof {
        assert(upper_seq(s@) =~= t@);
    }
    true
}

impl Method {
    /// The canonical upper-case name of the method.
    pub open spec fn spec_name(self) -> Seq<char> {
        match self {
            Method::Get => "GET"@,
            Method::Post => "POST"@,
            Method::Head => "HEAD"@,
            Method::Put => "PUT"@,
            Method::Patch => "PATCH"@,
            Method::Delete => "DELETE"@,
            Method::Options => "OPTIONS"@,
            Method::Connect => "CONNECT"@,
            Method::Trace => "TRACE"@,
        }
    }

    /// Returns the canonical upper-case token for this method.
    pub fn as_str(&self) -> (s: &str)
        ensures
            s@ == self.spec_name(),
    {
        match self {
            Method::Get => "GET",
            Method::Post => "POST",
            Method::Head => "HEAD",
            Method::Put => "PUT",
            Method::Patch => "PATCH",
            Method::Delete => "DELETE",
            Method::Options => "OPTIONS",
            Method::Connect => "CONNECT",
            Method::Trace => "TRACE",
        }
    }

    /// Parses a method name, ignoring ASCII case; any unrecognized name
    /// falls back to `Get`.
    pub fn from_name(s: &str) -> (m: Method)
        ensures
            m == method_of_name(s@),
    {
        if str_eq_upper(s, "GET") {
            Method::Get
        } else if str_eq_upper(s, "POST") {
            Method::Post
        } else if str_eq_upper(s, "HEAD") {
            Method::Head
        } else if str_eq_upper(s, "PUT") {
            Method::Put
        } else if str_eq_upper(s, "PATCH") {
            Method::Patch
        } else if str_eq_upper(s, "DELETE") {
            Method::Delete
        } else if str_eq_upper(s, "OPTIONS") {
            Method::Options
        } else if str_eq_upper(s, "CONNECT") {
            Method::Connect
        } else if str_eq_upper(s, "TRACE") {
            Method::Trace
        } else {
            Method::Get
        }
    }
}

impl Default for Method {
    /// The fallback method, `Get`.
    fn default() -> (m: Method)
        ensures
            m == Method::Get,
    {
        Method::Get
    }
}

} // verus!
