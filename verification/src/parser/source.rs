//! The input text of the parser and the scanning primitives of the grammar:
//! whitespace, identifier and digit runs, and fixed words.
use vstd::prelude::*;

verus! {

/// Whitespace that may stand between any two tokens of a non-atomic rule.
pub open spec fn is_ws(c: char) -> bool {
    c == ' ' || c == '\t' || c == '\r' || c == '\n'
}

/// `ASCII_ALPHANUMERIC | "_"`, the characters of an identifier.
pub open spec fn is_ident_char(c: char) -> bool {
    ('a' <= c && c <= 'z') || ('A' <= c && c <= 'Z') || ('0' <= c && c <= '9') || c == '_'
}

/// `ASCII_DIGIT`.
pub open spec fn is_digit(c: char) -> bool {
    '0' <= c && c <= '9'
}

/// The first position at or after `i` that does not hold whitespace.
pub open spec fn skip_ws(s: Seq<char>, i: int) -> int
    decreases s.len() - i,
{
    if 0 <= i < s.len() && is_ws(s[i]) {
        skip_ws(s, i + 1)
    } else {
        i
    }
}

/// The end of the longest run of identifier characters that starts at `i`.
pub open spec fn ident_end(s: Seq<char>, i: int) -> int
    decreases s.len() - i,
{
    if 0 <= i < s.len() && is_ident_char(s[i]) {
        ident_end(s, i + 1)
    } else {
        i
    }
}

/// The end of the longest run of digits that starts at `i`.
pub open spec fn digits_end(s: Seq<char>, i: int) -> int
    decreases s.len() - i,
{
    if 0 <= i < s.len() && is_digit(s[i]) {
        digits_end(s, i + 1)
    } else {
        i
    }
}

/// `s` holds the character `c` at position `i`.
pub open spec fn char_at(s: Seq<char>, i: int, c: char) -> bool {
    0 <= i < s.len() && s[i] == c
}

/// `s` holds the word `w` from position `i` on.
pub open spec fn word_at(s: Seq<char>, i: int, w: Seq<char>) -> bool {
    0 <= i && i + w.len() <= s.len() && s.subrange(i, i + w.len()) == w
}

pub proof fn lemma_skip_ws_bounds(s: Seq<char>, i: int)
    ensures
        skip_ws(s, i) >= i,
        0 <= i <= s.len() ==> skip_ws(s, i) <= s.len(),
        !(0 <= i <= s.len()) ==> skip_ws(s, i) == i,
        0 <= skip_ws(s, i) < s.len() ==> !is_ws(s[skip_ws(s, i)]),
    decreases s.len() - i,
{
    if 0 <= i < s.len() && is_ws(s[i]) {
        lemma_skip_ws_bounds(s, i + 1);
    }
}

pub proof fn lemma_ident_end_bounds(s: Seq<char>, i: int)
    ensures
        ident_end(s, i) >= i,
        0 <= i <= s.len() ==> ident_end(s, i) <= s.len(),
        ident_end(s, i) > i ==> 0 <= i,
        forall|k: int| i <= k < ident_end(s, i) ==> is_ident_char(#[trigger] s[k]),
        0 <= ident_end(s, i) < s.len() ==> !is_ident_char(s[ident_end(s, i)]),
    decreases s.len() - i,
{
    if 0 <= i < s.len() && is_ident_char(s[i]) {
        lemma_ident_end_bounds(s, i + 1);
    }
}

pub proof fn lemma_digits_end_bounds(s: Seq<char>, i: int)
    ensures
        digits_end(s, i) >= i,
        0 <= i <= s.len() ==> digits_end(s, i) <= s.len(),
        digits_end(s, i) > i ==> 0 <= i,
        forall|k: int| i <= k < digits_end(s, i) ==> is_digit(#[trigger] s[k]),
    decreases s.len() - i,
{
    if 0 <= i < s.len() && is_digit(s[i]) {
        lemma_digits_end_bounds(s, i + 1);
    }
}

/// The text being parsed, held both as a string and as its characters.
pub struct Source<'a> {
    text: &'a str,
    chars: Vec<char>,
}

impl<'a> View for Source<'a> {
    type V = Seq<char>;

    closed spec fn view(&self) -> Seq<char> {
        self.text@
    }
}

impl<'a> Source<'a> {
    #[verifier::type_invariant]
    spec fn chars_match(self) -> bool {
        self.chars@ == self.text@
    }

    /// Reads the characters of `text`.
    pub fn new(text: &'a str) -> (src: Self)
        ensures
            src@ == text@,
    {
        let mut chars: Vec<char> = Vec::new();
        for c in it: text.chars()
            invariant
                chars@ == it.seq().take(it.index() as int),
                it.seq() == text@,
        {
            chars.push(c);
        }
        proof {
            assert(chars@ =~= text@);
        }
        Source { text, chars }
    }

    /// The number of characters.
    pub fn len(&self) -> (n: usize)
        ensures
            n == self@.len(),
    {
        proof {
            use_type_invariant(self);
        }
        self.chars.len()
    }

    /// Whether position `i` holds the character `c`.
    pub fn has_char(&self, i: usize, c: char) -> (b: bool)
        ensures
            b == char_at(self@, i as int, c),
            self@.len() <= usize::MAX,
    {
        proof {
            use_type_invariant(self);
        }
        i < self.chars.len() && self.chars[i] == c
    }

    /// Whether the word `w` stands at position `i`.
    pub fn has_word(&self, i: usize, w: &Vec<char>) -> (b: bool)
        ensures
            b == word_at(self@, i as int, w@),
            self@.len() <= usize::MAX,
    {
        proof {
            use_type_invariant(self);
        }
        let n = self.chars.len();
        if i > n || w.len() > n - i {
            return false;
        }
        let mut k: usize = 0;
        while k < w.len()
            invariant
                i + w.len() <= n,
                n == self.chars@.len(),
                self.chars@ == self@,
                k <= w.len(),
                forall|j: int| 0 <= j < k ==> self.chars@[i + j] == w@[j],
            decreases w.len() - k,
        {
            if self.chars[i + k] != w[k] {
                proof {
                    assert(self@.subrange(i as int, i + w.len())[k as int] != w@[k as int]);
                }
                return false;
            }
            k = k + 1;
        }
        proof {
            assert(self@.subrange(i as int, i + w.len()) =~= w@);
        }
        true
    }

    /// The first position at or after `i` that holds no whitespace.
    pub fn skip_ws(&self, i: usize) -> (j: usize)
        requires
            i <= self@.len(),
        ensures
            j == skip_ws(self@, i as int),
    {
        proof {
            use_type_invariant(self);
        }
        let mut j = i;
        while j < self.chars.len() && (self.chars[j] == ' ' || self.chars[j] == '\t'
            || self.chars[j] == '\r' || self.chars[j] == '\n')
            invariant
                i <= j <= self.chars@.len(),
                self.chars@ == self@,
                skip_ws(self@, i as int) == skip_ws(self@, j as int),
            decreases self.chars@.len() - j,
        {
            j = j + 1;
        }
        j
    }

    /// The end of the identifier characters that start at `i`.
    pub fn ident_end(&self, i: usize) -> (j: usize)
        requires
            i <= self@.len(),
        ensures
            j == ident_end(self@, i as int),
    {
        proof {
            use_type_invariant(self);
        }
        let mut j = i;
        while j < self.chars.len() && (('a' <= self.chars[j] && self.chars[j] <= 'z') || ('A'
            <= self.chars[j] && self.chars[j] <= 'Z') || ('0' <= self.chars[j] && self.chars[j]
            <= '9') || self.chars[j] == '_')
            invariant
                i <= j <= self.chars@.len(),
                self.chars@ == self@,
                ident_end(self@, i as int) == ident_end(self@, j as int),
            decreases self.chars@.len() - j,
        {
            j = j + 1;
        }
        j
    }

    /// The end of the digits that start at `i`.
    pub fn digits_end(&self, i: usize) -> (j: usize)
        requires
            i <= self@.len(),
        ensures
            j == digits_end(self@, i as int),
    {
        proof {
            use_type_invariant(self);
        }
        let mut j = i;
        while j < self.chars.len() && '0' <= self.chars[j] && self.chars[j] <= '9'
            invariant
                i <= j <= self.chars@.len(),
                self.chars@ == self@,
                digits_end(self@, i as int) == digits_end(self@, j as int),
            decreases self.chars@.len() - j,
        {
            j = j + 1;
        }
        j
    }

    /// The character at position `i`.
    pub fn char_at(&self, i: usize) -> (c: char)
        requires
            i < self@.len(),
        ensures
            c == self@[i as int],
    {
        proof {
            use_type_invariant(self);
        }
        self.chars[i]
    }

    /// The text from position `from` up to `to`, as a new string.
    pub fn slice(&self, from: usize, to: usize) -> (t: String)
        requires
            from <= to <= self@.len(),
        ensures
            t@ == self@.subrange(from as int, to as int),
    {
        String::from_str(self.text.substring_char(from, to))
    }
}

} // verus!
