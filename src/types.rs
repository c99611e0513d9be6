//! The values handed to callers: path keys, leaf values and errors.
use vstd::prelude::*;
use vstd::string::StringExecFns;

verus! {

/// One step of the path from the document root to a value: an object
/// member name, borrowed from the input, or a zero-based array position.
#[derive(Debug, Clone, Copy, PartialEq, Eq)]
pub enum JSONKey<'a> {
    Slice(&'a str),
    Index(usize),
}

/// A leaf value, borrowed from the input. Numbers are the raw source text.
#[derive(Debug, PartialEq, Eq)]
pub enum RootJSONValue<'a> {
    String(&'a str),
    Number(&'a str),
    True,
    False,
    Null,
}

/// Why a scan stopped with an error.
#[derive(Debug, Clone, Copy, PartialEq, Eq, Structural)]
pub enum JSONParseErrorReason {
    ExpectedColon,
    ExpectedEndOfValue,
    /// Doubles as both closing and ending
    ExpectedBracket,
    ExpectedTrueFalseNull,
    ExpectedValue,
    ExpectedEndOfMultilineComment,
    /// Both for string values and keys
    ExpectedQuote,
}

/// An error together with the byte offset at which it was detected.
#[derive(Debug, Clone, Copy, PartialEq, Eq, Structural)]
pub struct JSONParseError {
    pub at: usize,
    pub reason: JSONParseErrorReason,
}

/// A path key as a mathematical value.
pub enum PathKey {
    Slice(Seq<char>),
    Index(nat),
}

/// A leaf value as a mathematical value.
pub enum Leaf {
    String(Seq<char>),
    Number(Seq<char>),
    True,
    False,
    Null,
}

/// One report of the scanner: where a leaf value stands, and the value.
pub struct Event {
    pub path: Seq<PathKey>,
    pub value: Leaf,
}

impl<'a> View for JSONKey<'a> {
    type V = PathKey;

    open spec fn view(&self) -> PathKey {
        match *self {
            JSONKey::Slice(s) => PathKey::Slice(s@),
            JSONKey::Index(i) => PathKey::Index(i as nat),
        }
    }
}

impl<'a> View for RootJSONValue<'a> {
    type V = Leaf;

    open spec fn view(&self) -> Leaf {
        match *self {
            RootJSONValue::String(s) => Leaf::String(s@),
            RootJSONValue::Number(s) => Leaf::Number(s@),
            RootJSONValue::True => Leaf::True,
            RootJSONValue::False => Leaf::False,
            RootJSONValue::Null => Leaf::Null,
        }
    }
}

/// The path of a sequence of keys.
pub open spec fn path_of<'a>(keys: Seq<JSONKey<'a>>) -> Seq<PathKey> {
    keys.map_values(|k: JSONKey<'a>| k@)
}

/// The decimal digit `d`.
pub open spec fn digit(d: nat) -> char {
    seq!['0', '1', '2', '3', '4', '5', '6', '7', '8', '9'][d as int]
}

/// The decimal notation of `n`, without leading zeros.
pub open spec fn decimal(n: nat) -> Seq<char>
    decreases n,
{
    if n < 10 {
        seq![digit(n)]
    } else {
        decimal(n / 10).push(digit(n % 10))
    }
}

fn digit_str(d: usize) -> (r: &'static str)
    requires
        d < 10,
    ensures
        r@ == seq![digit(d as nat)],
{
    proof {
        reveal_strlit("0");
        reveal_strlit("1");
        reveal_strlit("2");
        reveal_strlit("3");
        reveal_strlit("4");
        reveal_strlit("5");
        reveal_strlit("6");
        reveal_strlit("7");
        reveal_strlit("8");
        reveal_strlit("9");
    }
    let r = if d == 0 {
        "0"
    } else if d == 1 {
        "1"
    } else if d == 2 {
        "2"
    } else if d == 3 {
        "3"
    } else if d == 4 {
        "4"
    } else if d == 5 {
        "5"
    } else if d == 6 {
        "6"
    } else if d == 7 {
        "7"
    } else if d == 8 {
        "8"
    } else {
        "9"
    };
    assert(r@ =~= seq![digit(d as nat)]);
    r
}

fn decimal_string(n: usize) -> (r: String)
    ensures
        r@ == decimal(n as nat),
    decreases n,
{
    if n < 10 {
        String::from_str(digit_str(n))
    } else {
        let mut s = decimal_string(n / 10);
        s.append(digit_str(n % 10));
        s
    }
}

impl JSONParseErrorReason {
    /// The name of the reason, as written in this crate.
    pub open spec fn spec_name(self) -> Seq<char> {
        match self {
            JSONParseErrorReason::ExpectedColon => "ExpectedColon"@,
            JSONParseErrorReason::ExpectedEndOfValue => "ExpectedEndOfValue"@,
            JSONParseErrorReason::ExpectedBracket => "ExpectedBracket"@,
            JSONParseErrorReason::ExpectedTrueFalseNull => "ExpectedTrueFalseNull"@,
            JSONParseErrorReason::ExpectedValue => "ExpectedValue"@,
            JSONParseErrorReason::ExpectedEndOfMultilineComment => "ExpectedEndOfMultilineComment"@,
            JSONParseErrorReason::ExpectedQuote => "ExpectedQuote"@,
        }
    }

    /// The name of the reason.
    pub fn name(&self) -> (r: &'static str)
        ensures
            r@ == self.spec_name(),
    {
        match self {
            JSONParseErrorReason::ExpectedColon => "ExpectedColon",
            JSONParseErrorReason::ExpectedEndOfValue => "ExpectedEndOfValue",
            JSONParseErrorReason::ExpectedBracket => "ExpectedBracket",
            JSONParseErrorReason::ExpectedTrueFalseNull => "ExpectedTrueFalseNull",
            JSONParseErrorReason::ExpectedValue => "ExpectedValue",
            JSONParseErrorReason::ExpectedEndOfMultilineComment => "ExpectedEndOfMultilineComment",
            JSONParseErrorReason::ExpectedQuote => "ExpectedQuote",
        }
    }
}

impl JSONParseError {
    /// The message `JSONParseError: <reason> at <offset>`.
    pub fn to_string(&self) -> (r: String)
        ensures
            r@ == "JSONParseError: "@ + self.reason.spec_name() + " at "@ + decimal(self.at as nat),
    {
        let mut r = String::from_str("JSONParseError: ");
        r.append(self.reason.name());
        r.append(" at ");
        let n = decimal_string(self.at);
        r.append(n.as_str());
        r
    }
}

} // verus!
