use vstd::prelude::*;
use vstd::string::*;
use crate::text::push_char;

verus! {

/// An ASCII upper-case letter.
pub open spec fn is_upper(c: char) -> bool {
    'A' <= c && c <= 'Z'
}

/// Upper-case form of an ASCII lower-case letter; any other character is kept.
pub open spec fn upper(c: char) -> char {
    if 'a' <= c && c <= 'z' {
        ((c as u8) - 32) as u8 as char
    } else {
        c
    }
}

/// Lower-case form of an ASCII upper-case letter; any other character is kept.
pub open spec fn lower(c: char) -> char {
    if is_upper(c) {
        ((c as u8) + 32) as u8 as char
    } else {
        c
    }
}

/// Drops each underscore and upper-cases the character after it; `cap` says
/// whether the first character is upper-cased too.
pub open spec fn snake_words(s: Seq<char>, cap: bool) -> Seq<char>
    decreases s.len(),
{
    if s.len() == 0 {
        Seq::empty()
    } else if s[0] == '_' {
        snake_words(s.drop_first(), true)
    } else if cap {
        seq![upper(s[0])] + snake_words(s.drop_first(), false)
    } else {
        seq![s[0]] + snake_words(s.drop_first(), false)
    }
}

/// Lower-cases each character and puts `sep` before every upper-case letter
/// but a leading one (`first` says whether `s` starts the name).
pub open spec fn split_words(s: Seq<char>, sep: char, first: bool) -> Seq<char>
    decreases s.len(),
{
    if s.len() == 0 {
        Seq::empty()
    } else {
        (if !first && is_upper(s[0]) { seq![sep] } else { Seq::empty() }) + seq![lower(s[0])]
            + split_words(s.drop_first(), sep, false)
    }
}

/// `snake_case` to `camelCase`.
pub open spec fn camel_of_snake(s: Seq<char>) -> Seq<char> {
    snake_words(s, false)
}

/// `snake_case` to `PascalCase`.
pub open spec fn pascal_of_snake(s: Seq<char>) -> Seq<char> {
    snake_words(s, true)
}

/// `PascalCase` to `camelCase`: the first character is lower-cased.
pub open spec fn camel_of_pascal(s: Seq<char>) -> Seq<char> {
    if s.len() == 0 {
        s
    } else {
        seq![lower(s[0])] + s.drop_first()
    }
}

/// `PascalCase` to `kebab-case`.
pub open spec fn kebab_of_pascal(s: Seq<char>) -> Seq<char> {
    split_words(s, '-', true)
}

/// `PascalCase` to `snake_case`.
pub open spec fn snake_of_pascal(s: Seq<char>) -> Seq<char> {
    split_words(s, '_', true)
}

fn ascii_upper(c: char) -> (r: char)
    ensures
        r == upper(c),
{
    if 'a' <= c && c <= 'z' {
        ((c as u8) - 32) as char
    } else {
        c
    }
}

fn ascii_lower(c: char) -> (r: char)
    ensures
        r == lower(c),
{
    if 'A' <= c && c <= 'Z' {
        ((c as u8) + 32) as char
    } else {
        c
    }
}

proof fn lemma_rest(s: Seq<char>, i: int)
    requires
        0 <= i < s.len(),
    ensures
        s.subrange(i, s.len() as int).drop_first() == s.subrange(i + 1, s.len() as int),
        s.subrange(i, s.len() as int)[0] == s[i],
{
    assert(s.subrange(i, s.len() as int).drop_first() =~= s.subrange(i + 1, s.len() as int));
}

fn snake_convert(s: &str, cap_first: bool) -> (r: String)
    ensures
        r@ == snake_words(s@, cap_first),
{
    let n = s.unicode_len();
    let mut r = String::new();
    let mut capitalize = cap_first;
    let mut i: usize = 0;
    proof {
        assert(s@.subrange(0, n as int) =~= s@);
    }
    while i < n
        invariant
            n == s@.len(),
            i <= n,
            r@ + snake_words(s@.subrange(i as int, n as int), capitalize) == snake_words(
                s@,
                cap_first,
            ),
        decreases n - i,
    {
        let c = s.get_char(i);
        let ghost before = r@;
        let ghost rest = s@.subrange(i + 1, n as int);
        proof {
            lemma_rest(s@, i as int);
        }
        if c == '_' {
            capitalize = true;
        } else if capitalize {
            push_char(&mut r, ascii_upper(c));
            capitalize = false;
            assert(r@ + snake_words(rest, false) =~= before + (seq![upper(c)] + snake_words(
                rest,
                false,
            )));
        } else {
            push_char(&mut r, c);
            assert(r@ + snake_words(rest, false) =~= before + (seq![c] + snake_words(
                rest,
                false,
            )));
        }
        i = i + 1;
    }
    proof {
        assert(s@.subrange(n as int, n as int) =~= Seq::<char>::empty());
        assert(r@ =~= r@ + Seq::<char>::empty());
    }
    r
}

fn split_convert(s: &str, sep: char) -> (r: String)
    ensures
        r@ == split_words(s@, sep, true),
{
    let n = s.unicode_len();
    let mut r = String::new();
    let mut i: usize = 0;
    proof {
        assert(s@.subrange(0, n as int) =~= s@);
    }
    while i < n
        invariant
            n == s@.len(),
            i <= n,
            r@ + split_words(s@.subrange(i as int, n as int), sep, i == 0) == split_words(
                s@,
                sep,
                true,
            ),
        decreases n - i,
    {
        let c = s.get_char(i);
        let ghost before = r@;
        let ghost rest = s@.subrange(i + 1, n as int);
        proof {
            lemma_rest(s@, i as int);
        }
        if i > 0 && 'A' <= c && c <= 'Z' {
            push_char(&mut r, sep);
        }
        push_char(&mut r, ascii_lower(c));
        assert(r@ + split_words(rest, sep, false) =~= before + ((if i != 0 && is_upper(c) {
            seq![sep]
        } else {
            Seq::empty()
        }) + seq![lower(c)] + split_words(rest, sep, false)));
        i = i + 1;
    }
    proof {
        assert(s@.subrange(n as int, n as int) =~= Seq::<char>::empty());
        assert(r@ =~= r@ + Seq::<char>::empty());
    }
    r
}

/// `snake_case` to `camelCase`: each underscore is dropped and the character
/// after it upper-cased.
pub fn snake_to_camel(s: &str) -> (r: String)
    ensures
        r@ == camel_of_snake(s@),
{
    snake_convert(s, false)
}

/// `snake_case` to `PascalCase`: as [`snake_to_camel`], with the first
/// character upper-cased too.
pub fn snake_to_pascal(s: &str) -> (r: String)
    ensures
        r@ == pascal_of_snake(s@),
{
    snake_convert(s, true)
}

/// `PascalCase` to `camelCase`: the first character is lower-cased.
pub fn pascal_to_camel(s: &str) -> (r: String)
    ensures
        r@ == camel_of_pascal(s@),
{
    let n = s.unicode_len();
    let mut r = String::new();
    let mut i: usize = 0;
    while i < n
        invariant
            n == s@.len(),
            i <= n,
            n > 0 && i > 0 ==> r@ == seq![lower(s@[0])] + s@.subrange(1, i as int),
            i == 0 ==> r@.len() == 0,
        decreases n - i,
    {
        let c = s.get_char(i);
        let ghost before = r@;
        if i == 0 {
            push_char(&mut r, ascii_lower(c));
            assert(r@ =~= seq![lower(s@[0])] + s@.subrange(1, 1));
        } else {
            push_char(&mut r, c);
            assert(r@ =~= seq![lower(s@[0])] + s@.subrange(1, i + 1));
        }
        i = i + 1;
    }
    if n > 0 {
        assert(s@.drop_first() =~= s@.subrange(1, n as int));
    } else {
        assert(r@ =~= s@);
    }
    r
}

/// `PascalCase` to `kebab-case`: each character is lower-cased, and a `-`
/// goes before every upper-case letter but a leading one.
pub fn pascal_to_kebab(s: &str) -> (r: String)
    ensures
        r@ == kebab_of_pascal(s@),
{
    split_convert(s, '-')
}

/// `PascalCase` to `snake_case`: as [`pascal_to_kebab`], with `_` for `-`.
pub fn pascal_to_snake(s: &str) -> (r: String)
    ensures
        r@ == snake_of_pascal(s@),
{
    split_convert(s, '_')
}

} // verus!
