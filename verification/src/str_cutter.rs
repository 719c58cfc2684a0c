use std::str::Chars;
use vstd::prelude::*;
use vstd::std_specs::iter::IteratorSpec;
use vstd::string::StringSliceAdditionalSpecFns;
use vstd::utf8::{
    encode_utf8, encode_utf8_decode_utf8, encode_utf8_first_scalar, encode_utf8_valid_utf8,
    is_char_boundary, pop_first_scalar,
};

verus! {

/// How many characters at the start of `text` are delimiters (`of_delims`)
/// or are none (`!of_delims`), up to the first that differs.
pub open spec fn run(text: Seq<char>, delims: Seq<char>, of_delims: bool) -> nat
    decreases text.len(),
{
    if text.len() > 0 && delims.contains(text[0]) == of_delims {
        1 + run(text.drop_first(), delims, of_delims)
    } else {
        0
    }
}

/// `text` without the delimiters at its start.
pub open spec fn trimmed(text: Seq<char>, delims: Seq<char>) -> Seq<char> {
    text.skip(run(text, delims, true) as int)
}

/// The first token of `text`: what stands between the delimiters at its
/// start and the next delimiter, or the end; none where nothing but
/// delimiters is left.
pub open spec fn first_token(text: Seq<char>, delims: Seq<char>) -> Option<Seq<char>> {
    let rest = trimmed(text, delims);
    if rest.len() == 0 {
        None
    } else {
        Some(rest.take(run(rest, delims, false) as int))
    }
}

/// What is left of `text` once its first token is taken: what follows the
/// delimiter that ends the token, or nothing where the token ends the text.
pub open spec fn after_first(text: Seq<char>, delims: Seq<char>) -> Seq<char> {
    let rest = trimmed(text, delims);
    let n = run(rest, delims, false) as int;
    if n < rest.len() {
        rest.skip(n + 1)
    } else {
        Seq::empty()
    }
}

/// A run ends within the text: at the first character that differs, or at
/// the end.
pub proof fn lemma_run(text: Seq<char>, delims: Seq<char>, of_delims: bool)
    ensures
        run(text, delims, of_delims) <= text.len(),
        forall|i: int|
            0 <= i < run(text, delims, of_delims) ==> delims.contains(#[trigger] text[i])
                == of_delims,
        run(text, delims, of_delims) < text.len() ==> delims.contains(
            text[run(text, delims, of_delims) as int],
        ) != of_delims,
    decreases text.len(),
{
    if text.len() > 0 && delims.contains(text[0]) == of_delims {
        lemma_run(text.drop_first(), delims, of_delims);
        let n = run(text.drop_first(), delims, of_delims) as int;
        assert forall|i: int| 0 <= i < n + 1 implies delims.contains(#[trigger] text[i])
            == of_delims by {
            if i > 0 {
                assert(text[i] == text.drop_first()[i - 1]);
            }
        }
    }
}

/// A stretch of like characters from the start, up to the first character
/// that differs or to the end, is the run.
pub proof fn lemma_run_is(text: Seq<char>, delims: Seq<char>, of_delims: bool, n: int)
    requires
        0 <= n <= text.len(),
        forall|i: int| 0 <= i < n ==> delims.contains(#[trigger] text[i]) == of_delims,
        n < text.len() ==> delims.contains(text[n]) != of_delims,
    ensures
        run(text, delims, of_delims) == n,
    decreases n,
{
    if n > 0 {
        lemma_run_is(text.drop_first(), delims, of_delims, n - 1);
    }
}

/// What the first token and the rest are like: a token is not empty and
/// holds no delimiter, and the rest is a shorter end of the text; where there
/// is no token, the text holds nothing but delimiters and nothing is left.
pub proof fn lemma_first_token(text: Seq<char>, delims: Seq<char>)
    ensures
        match first_token(text, delims) {
            Some(t) => {
                &&& t.len() > 0
                &&& forall|i: int| 0 <= i < t.len() ==> !delims.contains(#[trigger] t[i])
                &&& after_first(text, delims).len() < text.len()
            },
            None => {
                &&& after_first(text, delims) == Seq::<char>::empty()
                &&& forall|i: int| 0 <= i < text.len() ==> delims.contains(#[trigger] text[i])
            },
        },
        after_first(text, delims) == text.skip(text.len() - after_first(text, delims).len()),
{
    lemma_run(text, delims, true);
    let rest = trimmed(text, delims);
    lemma_run(rest, delims, false);
}

/// The tokens of `text`, in order.
pub open spec fn tokens(text: Seq<char>, delims: Seq<char>) -> Seq<Seq<char>>
    decreases text.len(),
{
    match first_token(text, delims) {
        None => Seq::empty(),
        Some(t) => {
            proof {
                lemma_first_token(text, delims);
            }
            seq![t] + tokens(after_first(text, delims), delims)
        },
    }
}

/// No token is empty, and none holds a delimiter.
pub proof fn law_tokens_clean(text: Seq<char>, delims: Seq<char>, k: int)
    requires
        0 <= k < tokens(text, delims).len(),
    ensures
        tokens(text, delims)[k].len() > 0,
        forall|i: int|
            0 <= i < tokens(text, delims)[k].len() ==> !delims.contains(
                #[trigger] tokens(text, delims)[k][i],
            ),
    decreases text.len(),
{
    lemma_first_token(text, delims);
    if k > 0 {
        law_tokens_clean(after_first(text, delims), delims, k - 1);
    }
}

/// A text of nothing but delimiters, the empty text among them, has no
/// token, and once no token is left none ever comes again.
pub proof fn law_exhausted(text: Seq<char>, delims: Seq<char>)
    ensures
        (forall|i: int| 0 <= i < text.len() ==> delims.contains(#[trigger] text[i]))
            <==> first_token(text, delims) is None,
        first_token(text, delims) is None ==> tokens(text, delims) == Seq::<Seq<char>>::empty()
            && first_token(after_first(text, delims), delims) is None,
{
    lemma_run(text, delims, true);
}

/// The encoding of two texts, one after the other, is the two encodings,
/// one after the other.
proof fn lemma_encode_concat(a: Seq<char>, b: Seq<char>)
    ensures
        encode_utf8(a + b) == encode_utf8(a) + encode_utf8(b),
    decreases a.len(),
{
    if a.len() > 0 {
        assert((a + b).drop_first() =~= a.drop_first() + b);
        lemma_encode_concat(a.drop_first(), b);
    }
}

/// Where the encoding of one text ends and that of the next begins, a
/// character begins.
proof fn lemma_boundary(a: Seq<char>, b: Seq<char>)
    ensures
        is_char_boundary(encode_utf8(a + b), encode_utf8(a).len() as int),
    decreases a.len(),
{
    let bytes = encode_utf8(a + b);
    encode_utf8_valid_utf8(a + b);
    if a.len() > 0 {
        encode_utf8_first_scalar(a + b);
        assert((a + b).drop_first() =~= a.drop_first() + b);
        assert(pop_first_scalar(bytes) =~= encode_utf8(a.drop_first() + b));
        lemma_boundary(a.drop_first(), b);
    }
}

/// `Chars::as_str` gives the part of the text that the iterator has not
/// yet gone through.
pub assume_specification<'a>[ Chars::<'a>::as_str ](chars: &Chars<'a>) -> (rest: &'a str)
    ensures
        rest@ == chars.remaining(),
;

/// The front of `whole` that is left when `back` is taken off its end.
fn front_of<'a>(whole: &'a str, back: &str) -> (front: &'a str)
    requires
        back@.len() <= whole@.len(),
        back@ == whole@.skip(whole@.len() - back@.len()),
    ensures
        front@ == whole@.take(whole@.len() - back@.len()),
{
    let ghost k = whole@.len() - back@.len();
    proof {
        assert(whole@ =~= whole@.take(k) + back@);
        lemma_encode_concat(whole@.take(k), back@);
        lemma_boundary(whole@.take(k), back@);
    }
    let mid = whole.as_bytes().len() - back.as_bytes().len();
    let parts = whole.split_at(mid);
    proof {
        assert(parts.0.spec_bytes() =~= encode_utf8(whole@.take(k)));
        encode_utf8_decode_utf8(parts.0@);
        encode_utf8_decode_utf8(whole@.take(k));
    }
    parts.0
}

/// Whether `c` is one of `delimiters`.
fn is_delimiter(delimiters: &[char], c: char) -> (r: bool)
    ensures
        r == delimiters@.contains(c),
{
    let mut i: usize = 0;
    while i < delimiters.len()
        invariant
            i <= delimiters.len(),
            forall|j: int| 0 <= j < i ==> delimiters@[j] != c,
        decreases delimiters.len() - i,
    {
        if delimiters[i] == c {
            return true;
        }
        i += 1;
    }
    false
}

/// Cuts a text into the tokens that stand between delimiters, one token
/// for each call of `next`, without copying the text.
pub struct StrCutter<'a> {
    remainder: &'a str,
    delimiters: &'a [char],
}

impl<'a> StrCutter<'a> {
    /// The text that is still to be cut.
    pub closed spec fn remainder(&self) -> Seq<char> {
        self.remainder@
    }

    /// The delimiters.
    pub closed spec fn delimiters(&self) -> Seq<char> {
        self.delimiters@
    }

    /// A cutter that has all of `text` before it.
    pub fn new(text: &'a str, delimiters: &'a [char]) -> (cutter: Self)
        ensures
            cutter.remainder() == text@,
            cutter.delimiters() == delimiters@,
    {
        Self { remainder: text, delimiters }
    }

    /// The next token, if there is one; the cutter moves past it and past
    /// the delimiter that ends it.
    pub fn next(&mut self) -> (token: Option<&'a str>)
        ensures
            final(self).delimiters() == old(self).delimiters(),
            final(self).remainder() == after_first(old(self).remainder(), old(self).delimiters()),
            match token {
                Some(t) => first_token(old(self).remainder(), old(self).delimiters()) == Some(t@),
                None => first_token(old(self).remainder(), old(self).delimiters()) is None,
            },
            token is Some ==> final(self).remainder().len() < old(self).remainder().len(),
            token is None ==> final(self).remainder().len() == 0,
            match token {
                Some(t) => t@.len() > 0 && forall|i: int|
                    0 <= i < t@.len() ==> !old(self).delimiters().contains(#[trigger] t@[i]),
                None => forall|i: int|
                    0 <= i < old(self).remainder().len() ==> old(self).delimiters().contains(
                        #[trigger] old(self).remainder()[i],
                    ),
            },
    {
        let text: &'a str = self.remainder;
        let ghost delims = self.delimiters@;
        let mut it = text.chars();
        let mut start: &'a str = text;
        let ghost mut lead: int = 0;
        // the delimiters before the token
        loop
            invariant_except_break
                it.remaining() == text@.skip(lead),
            invariant
                self.delimiters@ == delims,
                delims == old(self).delimiters(),
                text@ == old(self).remainder(),
                0 <= lead <= text@.len(),
                forall|j: int| 0 <= j < lead ==> delims.contains(#[trigger] text@[j]),
            ensures
                0 <= lead < text@.len() && !delims.contains(text@[lead]),
                start@ == text@.skip(lead),
                it.remaining() == text@.skip(lead + 1),
                run(text@, delims, true) == lead,
            decreases text@.len() - lead,
        {
            let here = it.as_str();
            match it.next() {
                Some(c) => {
                    if is_delimiter(self.delimiters, c) {
                        proof {
                            lead = lead + 1;
                        }
                    } else {
                        start = here;
                        proof {
                            lemma_run_is(text@, delims, true, lead);
                        }
                        break ;
                    }
                },
                None => {
                    proof {
                        lemma_run_is(text@, delims, true, lead);
                    }
                    self.remainder = here;
                    return None;
                },
            }
        }
        let ghost rest = start@;
        let ghost mut n: int = 1;
        // the token
        loop
            invariant
                self.delimiters@ == delims,
                delims == old(self).delimiters(),
                text@ == old(self).remainder(),
                rest == start@,
                rest == text@.skip(lead),
                run(text@, delims, true) == lead,
                0 < n <= rest.len(),
                it.remaining() == rest.skip(n),
                forall|j: int| 0 <= j < n ==> !delims.contains(#[trigger] rest[j]),
            decreases rest.len() - n,
        {
            let here = it.as_str();
            match it.next() {
                Some(c) => {
                    if is_delimiter(self.delimiters, c) {
                        proof {
                            lemma_run_is(rest, delims, false, n);
                            lemma_first_token(text@, delims);
                        }
                        let token = front_of(start, here);
                        self.remainder = it.as_str();
                        return Some(token);
                    } else {
                        proof {
                            n = n + 1;
                        }
                    }
                },
                None => {
                    proof {
                        lemma_run_is(rest, delims, false, n);
                    }
                    self.remainder = here;
                    return Some(start);
                },
            }
        }
    }

    /// All the tokens that are left, in order.
    pub fn collect(self) -> (all: Vec<&'a str>)
        ensures
            all@.map_values(|t: &str| t@) == tokens(self.remainder(), self.delimiters()),
    {
        let mut cutter = self;
        let mut all: Vec<&'a str> = Vec::new();
        let ghost text = self.remainder();
        let ghost delims = self.delimiters();
        loop
            invariant
                text == self.remainder(),
                delims == self.delimiters(),
                cutter.delimiters() == delims,
                all@.map_values(|t: &str| t@) + tokens(cutter.remainder(), delims) == tokens(
                    text,
                    delims,
                ),
            decreases cutter.remainder().len(),
        {
            match cutter.next() {
                Some(t) => {
                    all.push(t);
                },
                None => {
                    return all;
                },
            }
        }
    }
}

} // verus!
