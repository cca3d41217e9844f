//! Texts as sequences of characters: joining, splitting, letter case.
use vstd::prelude::*;
use vstd::string::StringExecFns;
use vstd::utf8::{encode_utf8, is_ascii_chars};

verus! {

/// The characters of each text.
pub open spec fn views(texts: Seq<&str>) -> Seq<Seq<char>> {
    texts.map_values(|s: &str| s@)
}

/// The characters of each text.
pub open spec fn string_views(texts: Seq<String>) -> Seq<Seq<char>> {
    texts.map_values(|s: String| s@)
}

/// The characters of a text that may be absent.
pub open spec fn option_view(text: Option<String>) -> Option<Seq<char>> {
    match text {
        Some(s) => Some(s@),
        None => None,
    }
}

/// The characters of a text that may be absent.
pub open spec fn str_option_view(text: Option<&str>) -> Option<Seq<char>> {
    match text {
        Some(s) => Some(s@),
        None => None,
    }
}

/// The number of bytes of a text in UTF-8.
pub open spec fn byte_len(text: Seq<char>) -> usize {
    encode_utf8(text).len() as usize
}

// --- Joining ---

/// The parts in order, with `sep` between each two.
pub open spec fn joined(parts: Seq<Seq<char>>, sep: Seq<char>) -> Seq<char>
    decreases parts.len(),
{
    if parts.len() == 0 {
        seq![]
    } else if parts.len() == 1 {
        parts[0]
    } else {
        joined(parts.drop_last(), sep) + sep + parts.last()
    }
}

/// Joins the parts, with `sep` between each two.
pub fn join(parts: &Vec<&str>, sep: &str) -> (r: String)
    ensures
        r@ == joined(views(parts@), sep@),
{
    let mut out = String::new();
    let mut i: usize = 0;
    while i < parts.len()
        invariant
            i <= parts@.len(),
            out@ == joined(views(parts@).take(i as int), sep@),
        decreases parts@.len() - i,
    {
        if i > 0 {
            out.append(sep);
        }
        out.append(parts[i]);
        proof {
            let now = views(parts@).take(i + 1);
            assert(now.drop_last() =~= views(parts@).take(i as int));
            assert(now.last() == parts@[i as int]@);
        }
        i = i + 1;
    }
    assert(views(parts@).take(i as int) =~= views(parts@));
    out
}

/// Adds a text to the parts, where there is one.
pub fn push_present<'a>(parts: &mut Vec<&'a str>, text: &'a Option<String>)
    ensures
        views(final(parts)@) == views(old(parts)@) + present(option_view(*text)),
{
    match text {
        Some(s) => {
            parts.push(s.as_str());
        },
        None => {},
    }
    assert(views(parts@) =~= views(old(parts)@) + present(option_view(*text)));
}

/// A text that may be absent, as a list of at most one.
pub open spec fn present(text: Option<Seq<char>>) -> Seq<Seq<char>> {
    match text {
        Some(s) => seq![s],
        None => seq![],
    }
}

/// The text with every `from` in it, from the left, turned into `to`.
pub open spec fn replaced(s: Seq<char>, from: Seq<char>, to: Seq<char>) -> Seq<char>
    decreases s.len(),
{
    if from.len() == 0 || s.len() == 0 {
        s
    } else if from.is_prefix_of(s) {
        to + replaced(s.skip(from.len() as int), from, to)
    } else {
        seq![s[0]] + replaced(s.drop_first(), from, to)
    }
}

/// The pieces of a text between one `sep`, from the left, and the next.
pub open spec fn pieces(s: Seq<char>, sep: Seq<char>) -> Seq<Seq<char>>
    decreases s.len(),
{
    if sep.len() == 0 || s.len() == 0 {
        seq![s]
    } else if sep.is_prefix_of(s) {
        seq![seq![]] + pieces(s.skip(sep.len() as int), sep)
    } else {
        let rest = pieces(s.drop_first(), sep);
        seq![seq![s[0]] + rest[0]] + rest.skip(1)
    }
}

/// Whether no part holds the character.
pub open spec fn none_holds(parts: Seq<Seq<char>>, c: char) -> bool {
    forall|i: int| 0 <= i < parts.len() ==> !(#[trigger] parts[i]).contains(c)
}

proof fn lemma_replaced_behind(p: Seq<char>, rest: Seq<char>, from: Seq<char>, to: Seq<char>)
    requires
        from.len() > 0,
        !p.contains(from[0]),
    ensures
        replaced(p + rest, from, to) == p + replaced(rest, from, to),
    decreases p.len(),
{
    if p.len() == 0 {
        assert(p + rest =~= rest);
        assert(p + replaced(rest, from, to) =~= replaced(rest, from, to));
    } else {
        let all = p + rest;
        assert(p.contains(p[0]));
        assert(all[0] != from[0]);
        if from.is_prefix_of(all) {
            assert(from[0] == all.subrange(0, from.len() as int)[0]);
        }
        assert(all.drop_first() =~= p.drop_first() + rest);
        assert forall|c: char| p.drop_first().contains(c) implies p.contains(c) by {
            let i = choose|i: int| 0 <= i < p.len() - 1 && p.drop_first()[i] == c;
            assert(p[i + 1] == c);
        }
        lemma_replaced_behind(p.drop_first(), rest, from, to);
        assert(p + replaced(rest, from, to) =~= seq![p[0]] + (p.drop_first() + replaced(
            rest,
            from,
            to,
        )));
    }
}

proof fn lemma_replaced_in_joined(
    parts: Seq<Seq<char>>,
    rest: Seq<char>,
    from: Seq<char>,
    to: Seq<char>,
)
    requires
        from.len() > 0,
        none_holds(parts, from[0]),
    ensures
        replaced(joined(parts, from) + rest, from, to) == joined(parts, to) + replaced(
            rest,
            from,
            to,
        ),
    decreases parts.len(),
{
    let tail = replaced(rest, from, to);
    if parts.len() == 0 {
        assert(joined(parts, from) + rest =~= rest);
        assert(joined(parts, to) + tail =~= tail);
    } else if parts.len() == 1 {
        lemma_replaced_behind(parts[0], rest, from, to);
    } else {
        let first = parts.drop_last();
        let last = parts.last();
        assert(none_holds(first, from[0])) by {
            assert forall|i: int| 0 <= i < first.len() implies !(#[trigger] first[i]).contains(
                from[0],
            ) by {
                assert(first[i] == parts[i]);
            }
        }
        let next = from + (last + rest);
        lemma_replaced_in_joined(first, next, from, to);
        assert(joined(parts, from) + rest =~= joined(first, from) + next);
        assert(next.subrange(0, from.len() as int) =~= from);
        assert(next.skip(from.len() as int) =~= last + rest);
        assert(replaced(next, from, to) == to + replaced(last + rest, from, to));
        lemma_replaced_behind(last, rest, from, to);
        assert(joined(parts, to) + tail =~= joined(first, to) + (to + (last + tail)));
    }
}

/// Turning every separator of joined parts into another one joins them with that
/// one, where no part holds the character that the separator starts with.
pub proof fn law_replacing_the_separator_rejoins(
    parts: Seq<Seq<char>>,
    from: Seq<char>,
    to: Seq<char>,
)
    requires
        from.len() > 0,
        none_holds(parts, from[0]),
    ensures
        replaced(joined(parts, from), from, to) == joined(parts, to),
{
    let none = Seq::<char>::empty();
    lemma_replaced_in_joined(parts, none, from, to);
    assert(joined(parts, from) + none =~= joined(parts, from));
    assert(joined(parts, to) + none =~= joined(parts, to));
}

proof fn lemma_pieces_behind(p: Seq<char>, rest: Seq<char>, sep: Seq<char>)
    requires
        sep.len() > 0,
        !p.contains(sep[0]),
    ensures
        pieces(rest, sep).len() > 0,
        pieces(p + rest, sep) == seq![p + pieces(rest, sep)[0]] + pieces(rest, sep).skip(1),
    decreases p.len(), rest.len(),
{
    if p.len() == 0 {
        if rest.len() > 0 {
            if sep.is_prefix_of(rest) {
                lemma_pieces_behind(p, rest.skip(sep.len() as int), sep);
            } else {
                lemma_pieces_behind(p, rest.drop_first(), sep);
            }
        }
        assert(p + rest =~= rest);
        assert(p + pieces(rest, sep)[0] =~= pieces(rest, sep)[0]);
        assert(seq![p + pieces(rest, sep)[0]] + pieces(rest, sep).skip(1) =~= pieces(rest, sep));
    } else {
        let all = p + rest;
        assert(p.contains(p[0]));
        assert(all[0] != sep[0]);
        if sep.is_prefix_of(all) {
            assert(sep[0] == all.subrange(0, sep.len() as int)[0]);
        }
        assert(all.drop_first() =~= p.drop_first() + rest);
        assert forall|c: char| p.drop_first().contains(c) implies p.contains(c) by {
            let i = choose|i: int| 0 <= i < p.len() - 1 && p.drop_first()[i] == c;
            assert(p[i + 1] == c);
        }
        lemma_pieces_behind(p.drop_first(), rest, sep);
        let inner = pieces(all.drop_first(), sep);
        assert(inner.skip(1) =~= pieces(rest, sep).skip(1));
        assert(seq![p[0]] + inner[0] =~= p + pieces(rest, sep)[0]);
    }
}

proof fn lemma_pieces_of_joined(parts: Seq<Seq<char>>, rest: Seq<char>, sep: Seq<char>)
    requires
        sep.len() > 0,
        parts.len() > 0,
        none_holds(parts, sep[0]),
    ensures
        pieces(joined(parts, sep) + rest, sep) == parts.drop_last() + (seq![
            parts.last() + pieces(rest, sep)[0],
        ] + pieces(rest, sep).skip(1)),
    decreases parts.len(),
{
    let first = parts.drop_last();
    let last = parts.last();
    lemma_pieces_behind(last, rest, sep);
    let end = seq![last + pieces(rest, sep)[0]] + pieces(rest, sep).skip(1);
    if parts.len() == 1 {
        assert(first + end =~= end);
    } else {
        assert(none_holds(first, sep[0])) by {
            assert forall|i: int| 0 <= i < first.len() implies !(#[trigger] first[i]).contains(
                sep[0],
            ) by {
                assert(first[i] == parts[i]);
            }
        }
        let next = sep + (last + rest);
        lemma_pieces_of_joined(first, next, sep);
        assert(joined(parts, sep) + rest =~= joined(first, sep) + next);
        assert(next.subrange(0, sep.len() as int) =~= sep);
        assert(next.skip(sep.len() as int) =~= last + rest);
        assert(pieces(next, sep) == seq![Seq::<char>::empty()] + end);
        assert(pieces(next, sep).skip(1) =~= end);
        assert(first.last() + pieces(next, sep)[0] =~= first.last());
        assert(first.drop_last() + (seq![first.last()] + end) =~= first + end);
    }
}

/// Splitting joined parts at their separator gives the parts back, where there is
/// a part and none holds the character that the separator starts with.
pub proof fn law_splitting_undoes_joining(parts: Seq<Seq<char>>, sep: Seq<char>)
    requires
        sep.len() > 0,
        parts.len() > 0,
        none_holds(parts, sep[0]),
    ensures
        pieces(joined(parts, sep), sep) == parts,
{
    let none = Seq::<char>::empty();
    lemma_pieces_of_joined(parts, none, sep);
    assert(joined(parts, sep) + none =~= joined(parts, sep));
    assert(pieces(none, sep) =~= seq![none]);
    assert(parts.last() + none =~= parts.last());
    assert(parts.drop_last() + (seq![parts.last()] + pieces(none, sep).skip(1)) =~= parts);
}

/// Joining goes by parts: nothing joins to nothing, one part to itself, and two
/// lists to what each joins to, with the separator between them.
pub proof fn law_joining_goes_by_parts(xs: Seq<Seq<char>>, ys: Seq<Seq<char>>, sep: Seq<char>)
    ensures
        xs.len() == 0 ==> joined(xs, sep).len() == 0,
        xs.len() == 1 ==> joined(xs, sep) == xs[0],
        xs.len() > 0 && ys.len() > 0 ==> joined(xs + ys, sep) == joined(xs, sep) + sep + joined(
            ys,
            sep,
        ),
    decreases ys.len(),
{
    if xs.len() > 0 && ys.len() > 0 {
        let all = xs + ys;
        assert(all.drop_last() =~= xs + ys.drop_last());
        assert(all.last() == ys.last());
        if ys.len() == 1 {
            assert(xs + ys.drop_last() =~= xs);
        } else {
            law_joining_goes_by_parts(xs, ys.drop_last(), sep);
            assert(joined(all, sep) =~= joined(xs, sep) + sep + joined(ys, sep));
        }
    }
}

/// The length of a text is that of its bytes in UTF-8.
pub proof fn law_length_is_that_of_the_bytes(text: Seq<char>)
    requires
        encode_utf8(text).len() <= usize::MAX,
    ensures
        byte_len(text) == encode_utf8(text).len(),
{
}

// --- Whitespace ---

/// The characters with the Unicode property `White_Space`.
pub open spec fn is_white(c: char) -> bool {
    let u = c as u32;
    ||| 9 <= u <= 13
    ||| u == 0x20
    ||| u == 0x85
    ||| u == 0xA0
    ||| u == 0x1680
    ||| 0x2000 <= u <= 0x200A
    ||| u == 0x2028
    ||| u == 0x2029
    ||| u == 0x202F
    ||| u == 0x205F
    ||| u == 0x3000
}

/// `char::is_whitespace`: whether the character has the Unicode property
/// `White_Space`.
pub assume_specification[ char::is_whitespace ](c: char) -> (r: bool)
    ensures
        r == is_white(c),
;

/// The text without the whitespace that it starts with.
pub open spec fn trimmed_start(s: Seq<char>) -> Seq<char>
    decreases s.len(),
{
    if s.len() > 0 && is_white(s[0]) {
        trimmed_start(s.drop_first())
    } else {
        s
    }
}

/// The text without the whitespace that it ends in.
pub open spec fn trimmed_end(s: Seq<char>) -> Seq<char>
    decreases s.len(),
{
    if s.len() > 0 && is_white(s.last()) {
        trimmed_end(s.drop_last())
    } else {
        s
    }
}

/// The text without whitespace at either end.
pub open spec fn trimmed(s: Seq<char>) -> Seq<char> {
    trimmed_end(trimmed_start(s))
}

proof fn lemma_trimmed_start(s: Seq<char>)
    ensures
        trimmed_start(s).len() > 0 ==> !is_white(trimmed_start(s)[0]),
        trimmed_start(s).len() == 0 <==> forall|i: int|
            0 <= i < s.len() ==> is_white(#[trigger] s[i]),
    decreases s.len(),
{
    if s.len() > 0 && is_white(s[0]) {
        let rest = s.drop_first();
        lemma_trimmed_start(rest);
        if forall|i: int| 0 <= i < rest.len() ==> is_white(#[trigger] rest[i]) {
            assert forall|i: int| 0 <= i < s.len() implies is_white(#[trigger] s[i]) by {
                if i > 0 {
                    assert(is_white(rest[i - 1]));
                }
            }
        } else {
            let i = choose|i: int| 0 <= i < rest.len() && !is_white(#[trigger] rest[i]);
            assert(!is_white(s[i + 1]));
        }
    }
}

proof fn lemma_trimmed_end_keeps(s: Seq<char>)
    requires
        s.len() > 0,
        !is_white(s[0]),
    ensures
        trimmed_end(s).len() > 0,
    decreases s.len(),
{
    if is_white(s.last()) {
        lemma_trimmed_end_keeps(s.drop_last());
    }
}

/// Nothing is left of a text without its outer whitespace where it has nothing else.
pub(crate) proof fn lemma_trimmed_is_empty(s: Seq<char>)
    ensures
        trimmed(s).len() == 0 <==> forall|i: int|
            0 <= i < s.len() ==> is_white(#[trigger] s[i]),
{
    lemma_trimmed_start(s);
    if trimmed_start(s).len() > 0 {
        lemma_trimmed_end_keeps(trimmed_start(s));
    }
}

/// `str::trim`: takes the whitespace off both ends.
pub assume_specification[ str::trim ](s: &str) -> (r: &str)
    ensures
        r@ == trimmed(s@),
;

/// The words of a text that may go on: those that are complete, and the one
/// that has begun.
pub open spec fn open_words(s: Seq<char>) -> (Seq<Seq<char>>, Seq<char>)
    decreases s.len(),
{
    if s.len() == 0 {
        (seq![], seq![])
    } else {
        let (done, begun) = open_words(s.drop_last());
        if !is_white(s.last()) {
            (done, begun.push(s.last()))
        } else if begun.len() > 0 {
            (done.push(begun), seq![])
        } else {
            (done, begun)
        }
    }
}

/// The words of a text: its longest runs of characters that are no
/// whitespace.
pub open spec fn words(s: Seq<char>) -> Seq<Seq<char>> {
    let (done, begun) = open_words(s);
    if begun.len() > 0 {
        done.push(begun)
    } else {
        done
    }
}

/// Splits a text into its words.
pub fn split_words(s: &str) -> (r: Vec<String>)
    ensures
        string_views(r@) == words(s@),
{
    let mut done: Vec<String> = Vec::new();
    let mut begun = String::new();
    assert(string_views(done@) =~= open_words(s@.take(0)).0);
    for c in it: s.chars()
        invariant
            it.seq() == s@,
            string_views(done@) == open_words(s@.take(it.index() as int)).0,
            begun@ == open_words(s@.take(it.index() as int)).1,
    {
        let ghost now = s@.take(it.index() + 1);
        assert(now.drop_last() =~= s@.take(it.index() as int));
        assert(now.last() == c);
        if !c.is_whitespace() {
            begun.push(c);
        } else if !begun.as_str().is_empty() {
            let ghost was = done@;
            let ghost word = begun;
            done.push(begun);
            begun = String::new();
            assert(string_views(done@) =~= string_views(was).push(word@));
        }
    }
    assert(s@.take(s@.len() as int) =~= s@);
    if !begun.as_str().is_empty() {
        let ghost was = done@;
        let ghost word = begun;
        done.push(begun);
        assert(string_views(done@) =~= string_views(was).push(word@));
    }
    done
}

proof fn lemma_open_words_front(c: char, s: Seq<char>)
    requires
        is_white(c),
    ensures
        open_words(seq![c] + s) == open_words(s),
    decreases s.len(),
{
    let all = seq![c] + s;
    if s.len() == 0 {
        assert(all.drop_last() =~= s);
        assert(all.last() == c);
    } else {
        assert(all.drop_last() =~= seq![c] + s.drop_last());
        assert(all.last() == s.last());
        lemma_open_words_front(c, s.drop_last());
    }
}

proof fn lemma_words_trimmed_start(s: Seq<char>)
    ensures
        words(trimmed_start(s)) == words(s),
    decreases s.len(),
{
    if s.len() > 0 && is_white(s[0]) {
        lemma_words_trimmed_start(s.drop_first());
        assert(s =~= seq![s[0]] + s.drop_first());
        lemma_open_words_front(s[0], s.drop_first());
    }
}

proof fn lemma_words_trimmed_end(s: Seq<char>)
    ensures
        words(trimmed_end(s)) == words(s),
    decreases s.len(),
{
    if s.len() > 0 && is_white(s.last()) {
        lemma_words_trimmed_end(s.drop_last());
    }
}

/// Whitespace round a text does not change its words.
pub proof fn law_words_ignore_outer_whitespace(s: Seq<char>)
    ensures
        words(trimmed(s)) == words(s),
{
    lemma_words_trimmed_start(s);
    lemma_words_trimmed_end(trimmed_start(s));
}

proof fn lemma_open_words_plain(s: Seq<char>)
    ensures
        forall|i: int, j: int|
            0 <= i < open_words(s).0.len() && 0 <= j < open_words(s).0[i].len() ==> !is_white(
                #[trigger] open_words(s).0[i][j],
            ),
        forall|i: int|
            0 <= i < open_words(s).0.len() ==> #[trigger] open_words(s).0[i].len() > 0,
        forall|j: int|
            0 <= j < open_words(s).1.len() ==> !is_white(#[trigger] open_words(s).1[j]),
    decreases s.len(),
{
    if s.len() > 0 {
        lemma_open_words_plain(s.drop_last());
        let (done, begun) = open_words(s.drop_last());
        if is_white(s.last()) && begun.len() > 0 {
            let now = open_words(s).0;
            assert forall|i: int, j: int|
                0 <= i < now.len() && 0 <= j < now[i].len() implies !is_white(
                #[trigger] now[i][j],
            ) by {
                if i < done.len() {
                    assert(open_words(s).0[i] == done[i]);
                    assert(!is_white(done[i][j]));
                } else {
                    assert(open_words(s).0[i] == begun);
                }
            }
        }
    }
}

/// Every word has a character, and none of its characters is whitespace.
pub proof fn law_words_are_plain(s: Seq<char>)
    ensures
        forall|i: int| 0 <= i < words(s).len() ==> #[trigger] words(s)[i].len() > 0,
        forall|i: int, j: int|
            0 <= i < words(s).len() && 0 <= j < words(s)[i].len() ==> !is_white(
                #[trigger] words(s)[i][j],
            ),
{
    lemma_open_words_plain(s);
    let (done, begun) = open_words(s);
    assert forall|i: int, j: int|
        0 <= i < words(s).len() && 0 <= j < words(s)[i].len() implies !is_white(
        #[trigger] words(s)[i][j],
    ) by {
        if i < done.len() {
            assert(words(s)[i] == done[i]);
            assert(!is_white(done[i][j]));
        } else {
            assert(words(s)[i] == begun);
        }
    }
}

proof fn lemma_open_words_behind(s: Seq<char>, c: char, t: Seq<char>)
    requires
        is_white(c),
    ensures
        open_words(s.push(c) + t) == (words(s) + open_words(t).0, open_words(t).1),
    decreases t.len(),
{
    let all = s.push(c) + t;
    if t.len() == 0 {
        assert(all =~= s.push(c));
        assert(s.push(c).drop_last() =~= s);
        assert(words(s) + open_words(t).0 =~= words(s));
        assert(open_words(all).1 =~= open_words(t).1);
    } else {
        lemma_open_words_behind(s, c, t.drop_last());
        assert(all.drop_last() =~= s.push(c) + t.drop_last());
        assert(all.last() == t.last());
        assert(open_words(all).0 =~= words(s) + open_words(t).0);
    }
}

proof fn lemma_one_open_word(s: Seq<char>)
    requires
        forall|i: int| 0 <= i < s.len() ==> !is_white(#[trigger] s[i]),
    ensures
        open_words(s) == (Seq::<Seq<char>>::empty(), s),
    decreases s.len(),
{
    if s.len() > 0 {
        let init = s.drop_last();
        assert forall|i: int| 0 <= i < init.len() implies !is_white(#[trigger] init[i]) by {
            assert(init[i] == s[i]);
        }
        lemma_one_open_word(init);
        assert(s.last() == s[s.len() - 1]);
        assert(init.push(s.last()) =~= s);
    }
}

/// A text without whitespace is one word, if it has a character; and whitespace
/// splits a text, so that its words are those before it and those behind it.
pub proof fn law_words_are_split_at_whitespace(s: Seq<char>, c: char, t: Seq<char>)
    ensures
        s.len() == 0 ==> words(s).len() == 0,
        s.len() > 0 && (forall|i: int| 0 <= i < s.len() ==> !is_white(#[trigger] s[i]))
            ==> words(s) == seq![s],
        is_white(c) ==> words(s + seq![c] + t) == words(s) + words(t),
{
    if s.len() > 0 && (forall|i: int| 0 <= i < s.len() ==> !is_white(#[trigger] s[i])) {
        lemma_one_open_word(s);
        assert(words(s) =~= seq![s]);
    }
    if is_white(c) {
        lemma_open_words_behind(s, c, t);
        assert(s + seq![c] + t =~= s.push(c) + t);
        assert(words(s + seq![c] + t) =~= words(s) + words(t));
    }
}

// --- Letter case ---

/// An ASCII character in lower case.
pub open spec fn ascii_lower(c: char) -> char {
    if 'A' <= c <= 'Z' {
        (c as u32 + 32) as char
    } else {
        c
    }
}

/// The characters that `char::to_lowercase` maps a character to.
pub uninterp spec fn lower_chars(c: char) -> Seq<char>;

/// `char::to_lowercase`: the characters that it yields, in order; an ASCII
/// character becomes its lower case, or stays as it is where it has none.
#[verifier::external_body]
pub(crate) fn char_to_lowercase(c: char) -> (r: Vec<char>)
    ensures
        r@ == lower_chars(c),
        (c as u32) < 128 ==> r@ == seq![ascii_lower(c)],
{
    c.to_lowercase().collect()
}

/// The text that `str::to_lowercase` makes of a text.
pub uninterp spec fn lower_text(s: Seq<char>) -> Seq<char>;

/// `str::to_lowercase`: the text that it returns; in an ASCII text every
/// letter becomes its lower case.
pub assume_specification[ str::to_lowercase ](s: &str) -> (r: String)
    ensures
        r@ == lower_text(s@),
        is_ascii_chars(s@) ==> r@ == s@.map_values(|c: char| ascii_lower(c)),
;

// --- Parts of a text ---

/// Whether `part` stands somewhere in `s`.
pub open spec fn has_part(s: Seq<char>, part: Seq<char>) -> bool {
    exists|i: int|
        0 <= i <= s.len() - part.len() && #[trigger] s.subrange(i, i + part.len()) == part
}

/// `str::contains` with a text to look for: whether it stands somewhere in `s`.
#[verifier::external_body]
pub(crate) fn str_contains(s: &str, part: &str) -> (r: bool)
    ensures
        r == has_part(s@, part@),
{
    s.contains(part)
}

/// `String::push`: adds a character at the end.
pub assume_specification[ String::push ](s: &mut String, c: char)
    ensures
        final(s)@ == old(s)@.push(c),
;

// --- Numbers ---

/// The digit for a number below ten.
pub open spec fn digit(d: int) -> char {
    (0x30 + d) as char
}

/// A number in decimal, without leading zeros.
pub open spec fn decimal(n: int) -> Seq<char>
    decreases n,
{
    if n < 10 {
        seq![digit(n)]
    } else {
        decimal(n / 10).push(digit(n % 10))
    }
}

fn push_decimal(out: &mut String, n: u32)
    ensures
        final(out)@ == old(out)@ + decimal(n as int),
    decreases n,
{
    if n >= 10 {
        push_decimal(out, n / 10);
    }
    let d: u8 = (n % 10) as u8;
    out.push((0x30 + d) as char);
    assert(out@ =~= old(out)@ + decimal(n as int));
}

/// Writes a number in decimal.
pub fn to_decimal(n: u32) -> (r: String)
    ensures
        r@ == decimal(n as int),
{
    let mut out = String::new();
    push_decimal(&mut out, n);
    assert(out@ =~= decimal(n as int));
    out
}

/// The number that a row of decimal digits stands for.
pub open spec fn number_read(s: Seq<char>) -> int
    decreases s.len(),
{
    if s.len() == 0 {
        0
    } else {
        10 * number_read(s.drop_last()) + (s.last() as int - '0' as int)
    }
}

/// A number in decimal is made of digits, reads back as the number, and starts with
/// a zero only if it is zero.
pub proof fn law_decimal_reads_back(n: int)
    requires
        0 <= n,
    ensures
        decimal(n).len() > 0,
        forall|i: int| 0 <= i < decimal(n).len() ==> '0' <= #[trigger] decimal(n)[i] <= '9',
        number_read(decimal(n)) == n,
        n > 0 ==> decimal(n)[0] != '0',
    decreases n,
{
    if n < 10 {
        let one = seq![digit(n)];
        assert(one.drop_last() =~= seq![]);
        assert(number_read(seq![]) == 0);
        assert(number_read(one) == n);
    } else {
        law_decimal_reads_back(n / 10);
        let init = decimal(n / 10);
        assert(decimal(n).drop_last() =~= init);
        assert(decimal(n)[0] == init[0]);
        assert forall|i: int| 0 <= i < decimal(n).len() implies '0' <= #[trigger] decimal(n)[i]
            <= '9' by {
            if i < init.len() {
                assert(decimal(n)[i] == init[i]);
            }
        }
    }
}

} // verus!
