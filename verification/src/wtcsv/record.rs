//! One line of a table as its ordered fields.
use vstd::prelude::*;
use crate::text::{
    bounds_of_split, chars_of, lemma_views_push, split, split_bounds, string_of, views,
};
use crate::DELIMITER;

verus! {

/// The fields of one line, in order. By convention the first is the record's
/// identifier.
#[derive(Debug)]
pub struct Record {
    pub items: Vec<String>,
}

impl View for Record {
    type V = Seq<Seq<char>>;

    open spec fn view(&self) -> Seq<Seq<char>> {
        views(self.items@)
    }
}

/// A token without its first and its last character, which are taken to be
/// the quotes and are not looked at. A token of one character gives the empty
/// field, as the empty token does.
pub open spec fn strip(token: Seq<char>) -> Seq<char> {
    if token.len() <= 1 {
        Seq::<char>::empty()
    } else {
        token.subrange(1, token.len() - 1)
    }
}

/// Each token stripped.
pub open spec fn strip_all(tokens: Seq<Seq<char>>) -> Seq<Seq<char>> {
    Seq::new(tokens.len(), |i: int| strip(tokens[i]))
}

/// The fields of a line: its tokens between the delimiters, each stripped.
pub open spec fn record_of(line: Seq<char>) -> Seq<Seq<char>> {
    strip_all(split(line, DELIMITER))
}

/// Stripping goes token by token.
pub proof fn lemma_strip_all_push(tokens: Seq<Seq<char>>, token: Seq<char>)
    ensures
        strip_all(tokens.push(token)) == strip_all(tokens).push(strip(token)),
{
    assert(strip_all(tokens.push(token)) =~= strip_all(tokens).push(strip(token)));
}

/// The field that the token `chars[from..to]` stands for.
fn field_of(chars: &Vec<char>, from: usize, to: usize) -> (field: String)
    requires
        from <= to <= chars.len(),
    ensures
        field@ == strip(chars@.subrange(from as int, to as int)),
{
    if to - from <= 1 {
        String::new()
    } else {
        let field = string_of(chars, from + 1, to - 1);
        assert(field@ =~= strip(chars@.subrange(from as int, to as int)));
        field
    }
}

impl Record {
    /// Reads one line, given without its line end. Never fails: whether the
    /// line has as many fields as the header is for the table to judge.
    #[must_use]
    pub fn from_wt_string(raw: &str) -> (record: Record)
        ensures
            record@ == record_of(raw@),
    {
        let chars = chars_of(raw);
        assert(chars@.subrange(0, chars.len() as int) =~= raw@);
        Record::from_chars(&chars, 0, chars.len())
    }

    /// Reads the line `chars[from..to]`.
    pub fn from_chars(chars: &Vec<char>, from: usize, to: usize) -> (record: Record)
        requires
            from <= to <= chars.len(),
        ensures
            record@ == record_of(chars@.subrange(from as int, to as int)),
    {
        let bounds = split_bounds(chars, from, to, DELIMITER);
        let ghost tokens = split(chars@.subrange(from as int, to as int), DELIMITER);
        let mut items: Vec<String> = Vec::new();
        let mut k: usize = 0;
        assert(tokens.take(0) =~= Seq::<Seq<char>>::empty());
        assert(views(items@) =~= strip_all(tokens.take(0)));
        while k < bounds.len()
            invariant
                k <= bounds.len(),
                from <= to <= chars.len(),
                tokens == split(chars@.subrange(from as int, to as int), DELIMITER),
                bounds_of_split(bounds@, chars@, from as int, to as int, DELIMITER),
                views(items@) == strip_all(tokens.take(k as int)),
            decreases bounds.len() - k,
        {
            let (a, b) = bounds[k];
            let field = field_of(chars, a, b);
            proof {
                lemma_views_push(items@, field);
                lemma_strip_all_push(tokens.take(k as int), tokens[k as int]);
                assert(tokens.take(k as int).push(tokens[k as int]) =~= tokens.take(k + 1));
            }
            items.push(field);
            k += 1;
        }
        assert(tokens.take(k as int) =~= tokens);
        Record { items }
    }
}

impl Clone for Record {
    fn clone(&self) -> (res: Self)
        ensures
            res@ == self@,
    {
        let items = self.items.clone();
        assert(views(items@) =~= views(self.items@));
        Record { items }
    }
}

} // verus!
