//! Text handling for transcripts: trimming white space around a chunk's text
//! and joining the chunk texts into one transcript.
use vstd::prelude::*;

verus! {

/// The characters with the Unicode `White_Space` property.
pub open spec fn is_white_space(c: char) -> bool {
    let u = c as u32;
    ||| 0x9 <= u <= 0xD
    ||| u == 0x20
    ||| u == 0x85
    ||| u == 0xA0
    ||| u == 0x1680
    ||| 0x2000 <= u <= 0x200A
    ||| u == 0x2028
    ||| u == 0x2029
    ||| u == 0x202F
    ||| u == 0x205F
    ||| u == 0x3000
}

/// `s` without its leading white space.
pub open spec fn trim_start(s: Seq<char>) -> Seq<char>
    decreases s.len(),
{
    if s.len() > 0 && is_white_space(s[0]) {
        trim_start(s.drop_first())
    } else {
        s
    }
}

/// `s` without its trailing white space.
pub open spec fn trim_end(s: Seq<char>) -> Seq<char>
    decreases s.len(),
{
    if s.len() > 0 && is_white_space(s.last()) {
        trim_end(s.drop_last())
    } else {
        s
    }
}

/// `s` without its leading and trailing white space.
pub open spec fn trimmed(s: Seq<char>) -> Seq<char> {
    trim_end(trim_start(s))
}

/// The texts joined into one, with a single space between neighbours.
pub open spec fn joined(texts: Seq<Seq<char>>) -> Seq<char>
    decreases texts.len(),
{
    if texts.len() == 0 {
        Seq::<char>::empty()
    } else if texts.len() == 1 {
        texts[0]
    } else {
        joined(texts.drop_last()) + seq![' '] + texts.last()
    }
}

/// The views of a sequence of strings.
pub open spec fn string_views(v: Seq<String>) -> Seq<Seq<char>> {
    Seq::new(v.len(), |i: int| v[i]@)
}


proof fn lemma_trim_start(s: Seq<char>) -> (i: int)
    ensures
        0 <= i <= s.len(),
        trim_start(s) == s.subrange(i, s.len() as int),
        forall|k: int| 0 <= k < i ==> is_white_space(#[trigger] s[k]),
        i < s.len() ==> !is_white_space(s[i]),
    decreases s.len(),
{
    if s.len() > 0 && is_white_space(s[0]) {
        let i = lemma_trim_start(s.drop_first());
        assert(s.drop_first().subrange(i, s.len() - 1) =~= s.subrange(i + 1, s.len() as int));
        assert forall|k: int| 0 <= k < i + 1 implies is_white_space(#[trigger] s[k]) by {
            if k > 0 {
                assert(s[k] == s.drop_first()[k - 1]);
            }
        }
        i + 1
    } else {
        assert(s.subrange(0, s.len() as int) =~= s);
        0
    }
}

proof fn lemma_trim_end(s: Seq<char>) -> (j: int)
    ensures
        0 <= j <= s.len(),
        trim_end(s) == s.subrange(0, j),
        forall|k: int| j <= k < s.len() ==> is_white_space(#[trigger] s[k]),
        j > 0 ==> !is_white_space(s[j - 1]),
    decreases s.len(),
{
    if s.len() > 0 && is_white_space(s.last()) {
        let j = lemma_trim_end(s.drop_last());
        assert(s.drop_last().subrange(0, j) =~= s.subrange(0, j));
        assert forall|k: int| j <= k < s.len() implies is_white_space(#[trigger] s[k]) by {
            if k < s.len() - 1 {
                assert(s[k] == s.drop_last()[k]);
            }
        }
        j
    } else {
        assert(s.subrange(0, s.len() as int) =~= s);
        s.len() as int
    }
}

/// Trimming keeps a contiguous piece of the text: everything before it and
/// after it is white space, and the piece, when not empty, neither starts nor
/// ends with white space.
pub proof fn law_trimmed_is_inner_piece(s: Seq<char>)
    ensures
        exists|i: int, j: int|
            0 <= i <= j <= s.len() && trimmed(s) == s.subrange(i, j) && (forall|k: int|
                0 <= k < i ==> is_white_space(#[trigger] s[k])) && (forall|k: int|
                j <= k < s.len() ==> is_white_space(#[trigger] s[k])),
        trimmed(s).len() > 0 ==> !is_white_space(trimmed(s)[0]) && !is_white_space(
            trimmed(s).last(),
        ),
{
    let i = lemma_trim_start(s);
    let t = s.subrange(i, s.len() as int);
    let j = lemma_trim_end(t);
    assert(t.subrange(0, j) =~= s.subrange(i, i + j));
    assert forall|k: int| i + j <= k < s.len() implies is_white_space(#[trigger] s[k]) by {
        assert(s[k] == t[k - i]);
    }
    if j > 0 {
        assert(trimmed(s)[0] == t[0]);
        assert(t[0] == s[i]);
    }
    assert(0 <= i <= i + j <= s.len() && trimmed(s) == s.subrange(i, i + j));
}


/// The sum of the lengths of the texts.
pub open spec fn total_length(texts: Seq<Seq<char>>) -> int
    decreases texts.len(),
{
    if texts.len() == 0 {
        0
    } else {
        total_length(texts.drop_last()) + texts.last().len()
    }
}

/// Where text `i` starts once the texts are laid out one after the other with
/// one character between neighbours.
pub open spec fn text_position(texts: Seq<Seq<char>>, i: int) -> int {
    total_length(texts.take(i)) + i
}

/// Joining two non-empty lists of texts one after the other is joining each
/// and putting one space between the two results.
pub proof fn law_joined_concat(a: Seq<Seq<char>>, b: Seq<Seq<char>>)
    requires
        a.len() > 0,
        b.len() > 0,
    ensures
        joined(a + b) == joined(a) + seq![' '] + joined(b),
    decreases b.len(),
{
    if b.len() == 1 {
        assert((a + b).drop_last() =~= a);
        assert((a + b).last() == b[0]);
    } else {
        law_joined_concat(a, b.drop_last());
        assert((a + b).drop_last() =~= a + b.drop_last());
        assert((a + b).last() == b.last());
        assert(joined(a + b) =~= joined(a) + seq![' '] + joined(b));
    }
}

proof fn lemma_total_length_nonneg(texts: Seq<Seq<char>>)
    ensures
        total_length(texts) >= 0,
    decreases texts.len(),
{
    if texts.len() > 0 {
        lemma_total_length_nonneg(texts.drop_last());
    }
}

proof fn lemma_total_length_prefix(texts: Seq<Seq<char>>, i: int)
    requires
        0 <= i <= texts.len(),
    ensures
        0 <= total_length(texts.take(i)) <= total_length(texts),
        i < texts.len() ==> total_length(texts.take(i + 1)) == total_length(texts.take(i))
            + texts[i].len(),
    decreases texts.len() - i,
{
    lemma_total_length_nonneg(texts.take(i));
    if i == texts.len() {
        assert(texts.take(i) =~= texts);
    } else {
        assert(texts.take(i + 1).drop_last() =~= texts.take(i));
        lemma_total_length_prefix(texts, i + 1);
    }
}

proof fn lemma_layout_step(s: Seq<Seq<char>>, t: Seq<char>, i: int)
    requires
        s.len() > 0,
        0 <= i <= s.len(),
        joined(s).len() == total_length(s) + s.len() - 1,
        i < s.len() ==> joined(s).subrange(text_position(s, i), text_position(s, i) + s[i].len())
            == s[i],
        1 <= i < s.len() ==> joined(s)[text_position(s, i) - 1] == ' ',
    ensures
        ({
            let texts = s.push(t);
            let j = joined(texts);
            &&& j.subrange(text_position(texts, i), text_position(texts, i) + texts[i].len())
                == texts[i]
            &&& i >= 1 ==> j[text_position(texts, i) - 1] == ' '
        }),
{
    let texts = s.push(t);
    let j = joined(texts);
    assert(texts.drop_last() =~= s);
    assert(j == joined(s) + seq![' '] + t);
    if i < s.len() {
        assert(texts.take(i) =~= s.take(i));
        assert(s[i] == texts[i]);
        lemma_total_length_prefix(s, i);
        lemma_total_length_prefix(s, i + 1);
        let p = text_position(s, i);
        assert(p + s[i].len() <= joined(s).len());
        assert(j.subrange(p, p + s[i].len()) =~= joined(s).subrange(p, p + s[i].len()));
        if i >= 1 {
            assert(j[p - 1] == joined(s)[p - 1]);
        }
    } else {
        assert(texts.take(i) =~= s);
        assert(texts[i] == t);
        assert(j.subrange(text_position(texts, i), text_position(texts, i) + t.len()) =~= t);
    }
}

proof fn lemma_joined_len(texts: Seq<Seq<char>>)
    requires
        texts.len() > 0,
    ensures
        joined(texts).len() == total_length(texts) + texts.len() - 1,
    decreases texts.len(),
{
    if texts.len() == 1 {
        assert(texts.drop_last() =~= Seq::<Seq<char>>::empty());
        assert(total_length(Seq::<Seq<char>>::empty()) == 0);
    } else {
        lemma_joined_len(texts.drop_last());
    }
}

proof fn lemma_layout_at(texts: Seq<Seq<char>>, i: int)
    requires
        0 <= i < texts.len(),
    ensures
        joined(texts).subrange(text_position(texts, i), text_position(texts, i) + texts[i].len())
            == texts[i],
        i >= 1 ==> joined(texts)[text_position(texts, i) - 1] == ' ',
    decreases texts.len(),
{
    if texts.len() == 1 {
        assert(texts.take(0) =~= Seq::<Seq<char>>::empty());
        assert(total_length(Seq::<Seq<char>>::empty()) == 0);
        assert(joined(texts).subrange(0, texts[0].len() as int) =~= texts[0]);
    } else {
        let s = texts.drop_last();
        let t = texts.last();
        assert(s.push(t) =~= texts);
        lemma_joined_len(s);
        if i < s.len() {
            lemma_layout_at(s, i);
        }
        lemma_layout_step(s, t, i);
    }
}

/// The joined text is every text, whole and in order, with exactly one space
/// between neighbours and nothing else: its length is the sum of the lengths
/// plus one less than the number of texts, text `i` stands at
/// `text_position(texts, i)`, and a space stands just before each text but
/// the first.
pub proof fn law_joined_layout(texts: Seq<Seq<char>>)
    ensures
        texts.len() == 0 ==> joined(texts).len() == 0,
        texts.len() > 0 ==> joined(texts).len() == total_length(texts) + texts.len() - 1,
        forall|i: int|
            0 <= i < texts.len() ==> joined(texts).subrange(
                #[trigger] text_position(texts, i),
                text_position(texts, i) + texts[i].len(),
            ) == texts[i],
        forall|i: int|
            1 <= i < texts.len() ==> joined(texts)[#[trigger] text_position(texts, i) - 1]
                == ' ',
{
    if texts.len() > 0 {
        lemma_joined_len(texts);
    }
    assert forall|i: int| 0 <= i < texts.len() implies joined(texts).subrange(
        #[trigger] text_position(texts, i),
        text_position(texts, i) + texts[i].len(),
    ) == texts[i] && (i >= 1 ==> joined(texts)[text_position(texts, i) - 1] == ' ') by {
        lemma_layout_at(texts, i);
    }
}

/// Whether `c` has the Unicode `White_Space` property.
pub fn is_white_space_char(c: char) -> (r: bool)
    ensures
        r == is_white_space(c),
{
    let u = c as u32;
    (0x9 <= u && u <= 0xD) || u == 0x20 || u == 0x85 || u == 0xA0 || u == 0x1680 || (0x2000 <= u
        && u <= 0x200A) || u == 0x2028 || u == 0x2029 || u == 0x202F || u == 0x205F || u == 0x3000
}

/// Returns `s` with its leading and trailing white space removed.
pub fn trim_text(s: &str) -> (r: &str)
    ensures
        r@ == trimmed(s@),
{
    let n = s.unicode_len();
    let mut i: usize = 0;
    assert(s@.subrange(0, n as int) =~= s@);
    while i < n && is_white_space_char(s.get_char(i))
        invariant
            n == s@.len(),
            i <= n,
            trim_start(s@) == trim_start(s@.subrange(i as int, n as int)),
        decreases n - i,
    {
        assert(s@.subrange(i as int, n as int).drop_first() =~= s@.subrange(i + 1, n as int));
        i = i + 1;
    }
    assert(trim_start(s@) == s@.subrange(i as int, n as int));
    let mut j: usize = n;
    while j > i && is_white_space_char(s.get_char(j - 1))
        invariant
            n == s@.len(),
            i <= j <= n,
            trim_start(s@) == s@.subrange(i as int, n as int),
            trimmed(s@) == trim_end(s@.subrange(i as int, j as int)),
        decreases j,
    {
        assert(s@.subrange(i as int, j as int).drop_last() =~= s@.subrange(i as int, j - 1));
        j = j - 1;
    }
    assert(trimmed(s@) == s@.subrange(i as int, j as int));
    s.substring_char(i, j)
}

/// Joins the texts into one, with a single space between neighbours.
pub fn join_with_spaces(texts: &Vec<String>) -> (r: String)
    ensures
        r@ == joined(string_views(texts@)),
{
    let mut r = String::new();
    let n = texts.len();
    let mut i: usize = 0;
    while i < n
        invariant
            n == texts@.len(),
            i <= n,
            r@ == joined(string_views(texts@).take(i as int)),
        decreases n - i,
    {
        let ghost prev = string_views(texts@).take(i as int);
        let ghost next = string_views(texts@).take(i + 1);
        assert(next.drop_last() =~= prev);
        if i > 0 {
            proof {
                reveal_strlit(" ");
            }
            r.append(" ");
        } else {
            assert(r@ =~= Seq::<char>::empty());
        }
        r.append(texts[i].as_str());
        assert(r@ =~= joined(next));
        i = i + 1;
    }
    assert(string_views(texts@).take(n as int) =~= string_views(texts@));
    r
}

} // verus!
