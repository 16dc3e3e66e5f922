use vstd::prelude::*;
use vstd::string::StringExecFns;
use vstd::string::StrSliceExecFns;

verus! {

/// `String::push` appends one character.
pub assume_specification[ String::push ](string: &mut String, ch: char)
    ensures
        final(string)@ == old(string)@.push(ch),
;

/// The escape sequence that stands for `c` in HTML text, or `c` itself
/// where it needs none.
pub open spec fn escaped_char(c: char) -> Seq<char> {
    if c == '&' {
        seq!['&', 'a', 'm', 'p', ';']
    } else if c == '<' {
        seq!['&', 'l', 't', ';']
    } else if c == '>' {
        seq!['&', 'g', 't', ';']
    } else if c == '"' {
        seq!['&', 'q', 'u', 'o', 't', ';']
    } else if c == '\'' {
        seq!['&', '#', 'x', '2', '7', ';']
    } else {
        seq![c]
    }
}

/// `text` with each character replaced by its escape sequence.
pub open spec fn escaped(text: Seq<char>) -> Seq<char>
    decreases text.len(),
{
    if text.len() == 0 {
        Seq::empty()
    } else {
        escaped(text.drop_last()) + escaped_char(text.last())
    }
}

/// Escapes `input` for use in HTML text and attribute values: `&`, `<`,
/// `>`, `"` and `'` become character references, everything else is kept.
pub fn escape_html(input: &str) -> (escaped_text: String)
    ensures
        escaped_text@ == escaped(input@),
{
    let mut escaped_text = String::new();
    for ch in iter: input.chars()
        invariant
            iter.seq() == input@,
            escaped_text@ == escaped(input@.take(iter.index() as int)),
    {
        proof {
            let i = iter.index() as int;
            assert(input@.take(i + 1).drop_last() == input@.take(i));
            reveal_strlit("&amp;");
            reveal_strlit("&lt;");
            reveal_strlit("&gt;");
            reveal_strlit("&quot;");
            reveal_strlit("&#x27;");
        }
        match ch {
            '&' => escaped_text.append("&amp;"),
            '<' => escaped_text.append("&lt;"),
            '>' => escaped_text.append("&gt;"),
            '"' => escaped_text.append("&quot;"),
            '\'' => escaped_text.append("&#x27;"),
            _ => escaped_text.push(ch),
        }
    }
    assert(input@.take(input@.len() as int) == input@);
    escaped_text
}

/// Escaping text piecewise gives the escaping of the whole.
pub proof fn lemma_escaped_concat(a: Seq<char>, b: Seq<char>)
    ensures
        escaped(a + b) == escaped(a) + escaped(b),
    decreases b.len(),
{
    if b.len() == 0 {
        assert(a + b == a);
    } else {
        lemma_escaped_concat(a, b.drop_last());
        assert((a + b).drop_last() == a + b.drop_last());
        assert((a + b).last() == b.last());
    }
}

/// Escaped text holds no `<`, `>`, `"` or `'`.
pub proof fn lemma_escaped_has_no_markup(text: Seq<char>)
    ensures
        forall|i: int|
            0 <= i < escaped(text).len() ==> {
                let c = #[trigger] escaped(text)[i];
                c != '<' && c != '>' && c != '"' && c != '\''
            },
    decreases text.len(),
{
    if text.len() > 0 {
        lemma_escaped_has_no_markup(text.drop_last());
        let front = escaped(text.drop_last());
        let back = escaped_char(text.last());
        assert forall|i: int| 0 <= i < escaped(text).len() implies {
            let c = #[trigger] escaped(text)[i];
            c != '<' && c != '>' && c != '"' && c != '\''
        } by {
            if i >= front.len() {
                assert(escaped(text)[i] == back[i - front.len()]);
            } else {
                assert(escaped(text)[i] == front[i]);
            }
        }
    }
}

/// Text without `&`, `<`, `>`, `"` and `'` is left as it is.
pub proof fn lemma_plain_text_unchanged(text: Seq<char>)
    requires
        forall|i: int|
            0 <= i < text.len() ==> {
                let c = #[trigger] text[i];
                c != '&' && c != '<' && c != '>' && c != '"' && c != '\''
            },
    ensures
        escaped(text) == text,
    decreases text.len(),
{
    if text.len() > 0 {
        assert forall|i: int| 0 <= i < text.drop_last().len() implies {
            let c = #[trigger] text.drop_last()[i];
            c != '&' && c != '<' && c != '>' && c != '"' && c != '\''
        } by {
            assert(text.drop_last()[i] == text[i]);
        }
        lemma_plain_text_unchanged(text.drop_last());
        let c = text[text.len() - 1];
        assert(escaped_char(text.last()) == seq![text.last()]);
        assert(text.drop_last().push(text.last()) == text);
    }
}

/// Whether one of the five character references that escaping writes
/// starts `text`.
pub open spec fn starts_with_reference(text: Seq<char>) -> bool {
    ||| escaped_char('&').is_prefix_of(text)
    ||| escaped_char('<').is_prefix_of(text)
    ||| escaped_char('>').is_prefix_of(text)
    ||| escaped_char('"').is_prefix_of(text)
    ||| escaped_char('\'').is_prefix_of(text)
}

/// `text` with the five character references that escaping writes decoded,
/// from left to right.
pub open spec fn unescaped(text: Seq<char>) -> Seq<char>
    decreases text.len(),
{
    if text.len() == 0 {
        Seq::empty()
    } else if escaped_char('&').is_prefix_of(text) {
        seq!['&'] + unescaped(text.skip(5))
    } else if escaped_char('<').is_prefix_of(text) {
        seq!['<'] + unescaped(text.skip(4))
    } else if escaped_char('>').is_prefix_of(text) {
        seq!['>'] + unescaped(text.skip(4))
    } else if escaped_char('"').is_prefix_of(text) {
        seq!['"'] + unescaped(text.skip(6))
    } else if escaped_char('\'').is_prefix_of(text) {
        seq!['\''] + unescaped(text.skip(6))
    } else {
        seq![text[0]] + unescaped(text.skip(1))
    }
}

/// Decoding the escape sequence of `c` followed by `tail` gives `c`
/// followed by the decoding of `tail`.
proof fn lemma_unescape_step(c: char, tail: Seq<char>)
    ensures
        unescaped(escaped_char(c) + tail) == seq![c] + unescaped(tail),
{
    let t = escaped_char(c) + tail;
    let e = escaped_char(c);
    assert(t.len() > 0);
    assert(t.subrange(0, e.len() as int) =~= e);
    assert(t.skip(e.len() as int) =~= tail);
    let amp = escaped_char('&');
    let lt = escaped_char('<');
    let gt = escaped_char('>');
    let quot = escaped_char('"');
    let apos = escaped_char('\'');
    assert(amp[0] == '&' && amp[1] == 'a' && amp.len() == 5);
    assert(lt[0] == '&' && lt[1] == 'l' && lt.len() == 4);
    assert(gt[0] == '&' && gt[1] == 'g' && gt.len() == 4);
    assert(quot[0] == '&' && quot[1] == 'q' && quot.len() == 6);
    assert(apos[0] == '&' && apos[1] == '#' && apos.len() == 6);
    assert(t[0] == e[0]);
    if e.len() > 1 {
        assert(t[1] == e[1]);
    }
    if c == '&' {
        assert(amp.is_prefix_of(t));
    } else if c == '<' {
        assert(!amp.is_prefix_of(t)) by {
            if amp.is_prefix_of(t) {
                assert(t.subrange(0, 5)[1] == t[1]);
            }
        }
        assert(lt.is_prefix_of(t));
    } else if c == '>' {
        assert(!amp.is_prefix_of(t)) by {
            if amp.is_prefix_of(t) {
                assert(t.subrange(0, 5)[1] == t[1]);
            }
        }
        assert(!lt.is_prefix_of(t)) by {
            if lt.is_prefix_of(t) {
                assert(t.subrange(0, 4)[1] == t[1]);
            }
        }
        assert(gt.is_prefix_of(t));
    } else if c == '"' {
        assert(!amp.is_prefix_of(t)) by {
            if amp.is_prefix_of(t) {
                assert(t.subrange(0, 5)[1] == t[1]);
            }
        }
        assert(!lt.is_prefix_of(t)) by {
            if lt.is_prefix_of(t) {
                assert(t.subrange(0, 4)[1] == t[1]);
            }
        }
        assert(!gt.is_prefix_of(t)) by {
            if gt.is_prefix_of(t) {
                assert(t.subrange(0, 4)[1] == t[1]);
            }
        }
        assert(quot.is_prefix_of(t));
    } else if c == '\'' {
        assert(!amp.is_prefix_of(t)) by {
            if amp.is_prefix_of(t) {
                assert(t.subrange(0, 5)[1] == t[1]);
            }
        }
        assert(!lt.is_prefix_of(t)) by {
            if lt.is_prefix_of(t) {
                assert(t.subrange(0, 4)[1] == t[1]);
            }
        }
        assert(!gt.is_prefix_of(t)) by {
            if gt.is_prefix_of(t) {
                assert(t.subrange(0, 4)[1] == t[1]);
            }
        }
        assert(!quot.is_prefix_of(t)) by {
            if quot.is_prefix_of(t) {
                assert(t.subrange(0, 6)[1] == t[1]);
            }
        }
        assert(apos.is_prefix_of(t));
    } else {
        assert(e =~= seq![c]);
        assert(!amp.is_prefix_of(t)) by {
            if amp.is_prefix_of(t) {
                assert(t.subrange(0, 5)[0] == t[0]);
            }
        }
        assert(!lt.is_prefix_of(t)) by {
            if lt.is_prefix_of(t) {
                assert(t.subrange(0, 4)[0] == t[0]);
            }
        }
        assert(!gt.is_prefix_of(t)) by {
            if gt.is_prefix_of(t) {
                assert(t.subrange(0, 4)[0] == t[0]);
            }
        }
        assert(!quot.is_prefix_of(t)) by {
            if quot.is_prefix_of(t) {
                assert(t.subrange(0, 6)[0] == t[0]);
            }
        }
        assert(!apos.is_prefix_of(t)) by {
            if apos.is_prefix_of(t) {
                assert(t.subrange(0, 6)[0] == t[0]);
            }
        }
    }
}

/// Escaping loses nothing: decoding the five character references of
/// escaped text from left to right gives back the text, so different texts
/// escape differently.
pub proof fn lemma_unescape_escaped(text: Seq<char>)
    ensures
        unescaped(escaped(text)) == text,
    decreases text.len(),
{
    if text.len() > 0 {
        let c = text[0];
        let rest = text.skip(1);
        assert(text =~= seq![c] + rest);
        lemma_escaped_concat(seq![c], rest);
        assert(seq![c].drop_last() =~= Seq::<char>::empty());
        assert(seq![c].last() == c);
        assert(escaped(Seq::<char>::empty()) == Seq::<char>::empty());
        assert(Seq::<char>::empty() + escaped_char(c) =~= escaped_char(c));
        assert(escaped(seq![c]) == escaped_char(c));
        lemma_unescape_step(c, escaped(rest));
        lemma_unescape_escaped(rest);
    }
}

/// Each `&` in escaped text starts one of the five character references.
pub proof fn lemma_escaped_ampersands_start_references(text: Seq<char>)
    ensures
        forall|i: int|
            0 <= i < escaped(text).len() && #[trigger] escaped(text)[i] == '&' ==> starts_with_reference(
                escaped(text).skip(i),
            ),
    decreases text.len(),
{
    if text.len() > 0 {
        lemma_escaped_ampersands_start_references(text.drop_last());
        let front = escaped(text.drop_last());
        let back = escaped_char(text.last());
        let whole = escaped(text);
        assert(whole == front + back);
        assert forall|i: int| 0 <= i < whole.len() && #[trigger] whole[i] == '&' implies starts_with_reference(
            whole.skip(i),
        ) by {
            if i < front.len() {
                assert(front[i] == whole[i]);
                let f = front.skip(i);
                assert(starts_with_reference(f));
                let w = whole.skip(i);
                assert forall|r: Seq<char>| r.is_prefix_of(f) implies r.is_prefix_of(w) by {
                    assert forall|m: int| 0 <= m < r.len() implies w[m] == r[m] by {
                        assert(f[m] == r[m]);
                    }
                    assert(w.subrange(0, r.len() as int) =~= r);
                }
            } else {
                let j = i - front.len();
                assert(back[j] == '&');
                assert(j == 0);
                assert(whole.skip(i).subrange(0, back.len() as int) =~= back);
                assert(back.is_prefix_of(whole.skip(i)));
            }
        }
    }
}

} // verus!
