//! Titles that are made from file names.

use crate::document::Document;
use crate::text::{chars_of, split_text, text_of};
use vstd::prelude::*;

verus! {

/// An ASCII letter in its upper case; any other character as it is.
pub open spec fn upper(c: char) -> char {
    if 'a' <= c && c <= 'z' {
        (c as int - 32) as char
    } else {
        c
    }
}

/// A text with its first letter in upper case.
pub open spec fn capitalized(word: Seq<char>) -> Seq<char> {
    if word.len() == 0 {
        word
    } else {
        word.update(0, upper(word[0]))
    }
}

/// A space in place of each mark that parts words in a file name.
pub open spec fn spaced(name: Seq<char>) -> Seq<char> {
    name.map_values(
        |c: char|
            if c == '_' || c == '-' {
                ' '
            } else {
                c
            },
    )
}

/// The words, capitalized, that are not empty.
pub open spec fn capital_words(words: Seq<Seq<char>>) -> Seq<Seq<char>>
    decreases words.len(),
{
    if words.len() == 0 {
        Seq::empty()
    } else {
        let rest = capital_words(words.drop_last());
        if words.last().len() == 0 {
            rest
        } else {
            rest.push(capitalized(words.last()))
        }
    }
}

/// The title that a path suggests: the words of its file name, capitalized.
pub open spec fn suggested(path: Seq<char>) -> Seq<char> {
    let stem = match crate::path::stem_of(path) {
        Some(stem) => stem,
        None => Seq::empty(),
    };
    crate::text::joined(capital_words(crate::text::split(spaced(stem), ' ')), ' ')
}

/// The title of the document at `path`: what it declares, or what its path
/// suggests.
pub open spec fn title_of(doc: crate::document::DocView, path: Seq<char>) -> Seq<char> {
    match crate::meta::text_field(doc.meta, "title"@) {
        Some(title) => title,
        None => suggested(path),
    }
}

fn capital(word: &str) -> (r: String)
    ensures
        r@ == capitalized(word@),
{
    let mut cs = chars_of(word);
    if cs.len() == 0 {
        return word.to_owned();
    }
    let c = cs[0];
    if 'a' <= c && c <= 'z' {
        let lower: u8 = c as u8;
        cs.set(0, (lower - 32) as char);
    }
    let n: usize = cs.len();
    proof {
        assert(cs@.subrange(0, n as int) =~= capitalized(word@));
    }
    text_of(&cs, 0, n)
}

/// The title that a path suggests: the words of its file name, capitalized.
pub fn path_to_title(path: &str) -> (r: String)
    ensures
        r@ == suggested(path@),
{
    let stem = match crate::path::file_stem(path) {
        Some(stem) => stem,
        None => String::new(),
    };
    let mut cs = chars_of(&stem);
    let ghost all = cs@;
    let n: usize = cs.len();
    let mut i: usize = 0;
    while i < n
        invariant
            i <= n,
            n == cs@.len(),
            n == all.len(),
            forall|j: int| 0 <= j < i ==> #[trigger] cs@[j] == spaced(all)[j],
            forall|j: int| i <= j < n ==> #[trigger] cs@[j] == all[j],
        decreases n - i,
    {
        let c = cs[i];
        if c == '_' || c == '-' {
            cs.set(i, ' ');
        }
        i = i + 1;
    }
    let marked = text_of(&cs, 0, n);
    proof {
        assert(marked@ =~= spaced(all));
    }
    let words = split_text(&marked, ' ');
    let ghost runs = crate::text::texts(words@);
    let mut out = crate::walk::no_texts();
    let mut k: usize = 0;
    proof {
        assert(runs.take(0) =~= Seq::empty());
    }
    while k < words.len()
        invariant
            k <= words@.len(),
            runs == crate::text::texts(words@),
            crate::text::texts(out@) == capital_words(runs.take(k as int)),
        decreases words@.len() - k,
    {
        proof {
            assert(runs.take(k + 1).drop_last() =~= runs.take(k as int));
            assert(runs.take(k + 1).last() == words@[k as int]@);
            reveal_strlit("");
            assert(words@[k as int]@.len() == 0 ==> words@[k as int]@ =~= ""@);
        }
        if !crate::text::same_text(&words[k], "") {
            crate::walk::push_text(&mut out, capital(&words[k]));
        }
        k = k + 1;
    }
    proof {
        assert(runs.take(k as int) =~= runs);
    }
    crate::text::join_text(&out, ' ')
}

/// The title of the document at `path`: what it declares, or what its path
/// suggests.
pub fn document_title(doc: &Document, path: &str) -> (r: String)
    ensures
        r@ == title_of(doc@, path@),
{
    match doc.meta.get_text("title") {
        Some(title) => title,
        None => path_to_title(path),
    }
}

} // verus!
