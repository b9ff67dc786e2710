use vstd::prelude::*;

verus! {

/// Order side, one byte on the wire: 1 for Buy, 2 for Sell.
#[derive(Debug, Clone, Copy, PartialEq, Eq, Structural, Hash)]
pub enum Side {
    Buy,
    Sell,
}

/// The other side of the book.
pub open spec fn other_side(s: Side) -> Side {
    match s {
        Side::Buy => Side::Sell,
        Side::Sell => Side::Buy,
    }
}

/// The wire byte of a side.
pub open spec fn side_byte(s: Side) -> u8 {
    match s {
        Side::Buy => 1,
        Side::Sell => 2,
    }
}

/// The side that a wire byte stands for, if any.
pub open spec fn side_of_byte(b: u8) -> Option<Side> {
    if b == 1 {
        Some(Side::Buy)
    } else if b == 2 {
        Some(Side::Sell)
    } else {
        None
    }
}

/// ASCII lower-casing of one character; other characters are kept.
pub open spec fn ascii_lower(c: char) -> char {
    if 'A' <= c && c <= 'Z' {
        ((c as u8) + 32) as u8 as char
    } else {
        c
    }
}

/// True when `s` equals `word` (given in lower case) up to ASCII case.
pub open spec fn eq_ignore_ascii_case(s: Seq<char>, word: Seq<char>) -> bool {
    s.len() == word.len() && forall|i: int| 0 <= i < s.len() ==> ascii_lower(#[trigger] s[i]) == word[i]
}

fn lower_char(c: char) -> (r: char)
    ensures
        r == ascii_lower(c),
{
    if 'A' <= c && c <= 'Z' {
        ((c as u8) + 32) as u8 as char
    } else {
        c
    }
}

/// Compares `s` with a lower-case `word`, ignoring ASCII case.
fn matches_word(s: &str, word: &str) -> (r: bool)
    ensures
        r == eq_ignore_ascii_case(s@, word@),
{
    let n = s.unicode_len();
    if n != word.unicode_len() {
        return false;
    }
    let mut i: usize = 0;
    while i < n
        invariant
            n == s@.len(),
            n == word@.len(),
            i <= n,
            forall|j: int| 0 <= j < i ==> ascii_lower(#[trigger] s@[j]) == word@[j],
        decreases n - i,
    {
        if lower_char(s.get_char(i)) != word.get_char(i) {
            return false;
        }
        i = i + 1;
    }
    true
}

impl Side {
    /// Parses "buy" or "sell" in any ASCII case.
    pub fn from_str(s: &str) -> (r: Result<Side, String>)
        ensures
            eq_ignore_ascii_case(s@, seq!['b', 'u', 'y']) ==> r == Ok::<Side, String>(Side::Buy),
            eq_ignore_ascii_case(s@, seq!['s', 'e', 'l', 'l']) ==> r == Ok::<Side, String>(Side::Sell),
            !eq_ignore_ascii_case(s@, seq!['b', 'u', 'y']) && !eq_ignore_ascii_case(s@, seq!['s', 'e', 'l', 'l'])
                ==> r.is_err(),
    {
        proof {
            reveal_strlit("buy");
            reveal_strlit("sell");
        }
        if matches_word(s, "buy") {
            Ok(Side::Buy)
        } else if matches_word(s, "sell") {
            Ok(Side::Sell)
        } else {
            Err(String::from_str("Side must be 'buy' or 'sell'"))
        }
    }

    /// The other side of the book.
    pub fn opposite(&self) -> (r: Side)
        ensures
            r == other_side(*self),
    {
        match self {
            Side::Buy => Side::Sell,
            Side::Sell => Side::Buy,
        }
    }

    /// Sign multiplier: +1 for Buy, -1 for Sell.
    pub fn sign(&self) -> (r: i32)
        ensures
            r == (if *self == Side::Buy { 1i32 } else { -1i32 }),
    {
        match self {
            Side::Buy => 1,
            Side::Sell => -1,
        }
    }

    /// "Buy" or "Sell".
    pub fn to_string(&self) -> (r: String)
        ensures
            r@ == (if *self == Side::Buy { seq!['B', 'u', 'y'] } else { seq!['S', 'e', 'l', 'l'] }),
    {
        proof {
            reveal_strlit("Buy");
            reveal_strlit("Sell");
        }
        match self {
            Side::Buy => String::from_str("Buy"),
            Side::Sell => String::from_str("Sell"),
        }
    }

    /// The wire byte of this side.
    pub fn as_u8(&self) -> (r: u8)
        ensures
            r == side_byte(*self),
    {
        match self {
            Side::Buy => 1,
            Side::Sell => 2,
        }
    }

    /// Reads a side from its wire byte; any byte but 1 and 2 is refused.
    pub fn from_u8(value: u8) -> (r: Result<Side, String>)
        ensures
            side_of_byte(value) is Some <==> r is Ok,
            r is Ok ==> side_of_byte(value) == Some(r->Ok_0),
    {
        match value {
            1 => Ok(Side::Buy),
            2 => Ok(Side::Sell),
            _ => Err(String::from_str("Invalid Side byte: must be 1 (Buy) or 2 (Sell)")),
        }
    }
}

/// Reading back the byte of a side gives that side, and only the bytes 1 and 2
/// name a side.
pub proof fn lemma_side_byte_round_trip(s: Side, b: u8)
    ensures
        side_of_byte(side_byte(s)) == Some(s),
        side_of_byte(b) is Some <==> (b == 1 || b == 2),
{
}

} // verus!
