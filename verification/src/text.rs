//! Splitting of text into separator-delimited parts, tab normalization,
//! and the extraction of whitespace-separated tokens from a line.

use vstd::prelude::*;

verus! {

/// The views of a vector of strings, as a sequence of character sequences.
pub open spec fn views_of(parts: Seq<String>) -> Seq<Seq<char>> {
    parts.map_values(|p: String| p@)
}

/// `parts` with `p` prepended to its first element.
pub open spec fn prepend_to_first(p: Seq<char>, parts: Seq<Seq<char>>) -> Seq<Seq<char>> {
    parts.update(0, p + parts.first())
}

/// `s` split on every occurrence of `sep`, keeping empty parts: splitting
/// `"a::b"` on `':'` gives `["a", "", "b"]`, and the empty text gives `[""]`.
pub open spec fn split_on(s: Seq<char>, sep: char) -> Seq<Seq<char>>
    decreases s.len(),
{
    if s.len() == 0 {
        seq![Seq::<char>::empty()]
    } else if s[0] == sep {
        seq![Seq::<char>::empty()] + split_on(s.drop_first(), sep)
    } else {
        prepend_to_first(seq![s[0]], split_on(s.drop_first(), sep))
    }
}

pub proof fn lemma_split_on_nonempty(s: Seq<char>, sep: char)
    ensures
        split_on(s, sep).len() >= 1,
    decreases s.len(),
{
    if s.len() == 0 {
    } else {
        lemma_split_on_nonempty(s.drop_first(), sep);
    }
}

/// Unfolds `split_on` one step on the suffix of `s` that starts at `i`.
proof fn lemma_split_on_step(s: Seq<char>, sep: char, i: int)
    requires
        0 <= i < s.len(),
    ensures
        s[i] == sep ==> split_on(s.subrange(i, s.len() as int), sep) == seq![
            Seq::<char>::empty(),
        ] + split_on(s.subrange(i + 1, s.len() as int), sep),
        s[i] != sep ==> split_on(s.subrange(i, s.len() as int), sep) == prepend_to_first(
            seq![s[i]],
            split_on(s.subrange(i + 1, s.len() as int), sep),
        ),
{
    let t = s.subrange(i, s.len() as int);
    assert(t.len() > 0);
    assert(t[0] == s[i]);
    assert(t.drop_first() =~= s.subrange(i + 1, s.len() as int));
}

/// Relies on `String::push`: appends one character to the string.
#[verifier::external_body]
pub fn push_char(s: &mut String, c: char)
    ensures
        final(s)@ == old(s)@.push(c),
{
    s.push(c);
}

/// Splits `s` on every occurrence of `sep`, keeping empty parts.
pub fn split_char(s: &str, sep: char) -> (parts: Vec<String>)
    ensures
        views_of(parts@) == split_on(s@, sep),
{
    let n = s.unicode_len();
    let mut done: Vec<String> = Vec::new();
    let mut cur: String = String::new();
    let mut i: usize = 0;
    proof {
        assert(s@.subrange(0, n as int) =~= s@);
        lemma_split_on_nonempty(s@, sep);
        assert(views_of(done@) + prepend_to_first(cur@, split_on(s@, sep)) =~~= split_on(s@, sep));
    }
    while i < n
        invariant
            i <= n,
            n == s@.len(),
            split_on(s@, sep) == views_of(done@) + prepend_to_first(
                cur@,
                split_on(s@.subrange(i as int, n as int), sep),
            ),
        decreases n - i,
    {
        let ghost rest = split_on(s@.subrange(i as int + 1, n as int), sep);
        proof {
            lemma_split_on_step(s@, sep, i as int);
            lemma_split_on_nonempty(s@.subrange(i as int + 1, n as int), sep);
        }
        let c = s.get_char(i);
        if c == sep {
            let ghost done_before = done@;
            let ghost cur_before = cur@;
            done.push(cur);
            cur = String::new();
            proof {
                assert(prepend_to_first(cur_before, seq![Seq::<char>::empty()] + rest) =~~= seq![
                    cur_before,
                ] + rest);
                assert(prepend_to_first(Seq::<char>::empty(), rest) =~~= rest);
                assert(views_of(done_before) + (seq![cur_before] + rest) =~~= views_of(done@)
                    + rest);
            }
        } else {
            let ghost cur_before = cur@;
            push_char(&mut cur, c);
            proof {
                assert(prepend_to_first(cur_before, prepend_to_first(seq![c], rest))
                    =~~= prepend_to_first(cur@, rest));
            }
        }
        i += 1;
    }
    proof {
        assert(s@.subrange(n as int, n as int) =~= Seq::<char>::empty());
        assert(prepend_to_first(cur@, split_on(Seq::<char>::empty(), sep)) =~~= seq![cur@]);
    }
    let ghost done_before = done@;
    let ghost cur_final = cur@;
    done.push(cur);
    proof {
        assert(views_of(done_before) + seq![cur_final] =~~= views_of(done@));
    }
    done
}

/// `s` with every tab character replaced by a single space.
pub open spec fn normalize_tabs(s: Seq<char>) -> Seq<char> {
    s.map_values(|c: char| if c == '\t' { ' ' } else { c })
}

/// Replaces every tab character in `line` with a single space.
pub fn replace_tabs(line: &str) -> (r: String)
    ensures
        r@ == normalize_tabs(line@),
{
    let n = line.unicode_len();
    let mut out: String = String::new();
    let mut i: usize = 0;
    proof {
        assert(out@ =~= normalize_tabs(line@.subrange(0, 0)));
    }
    while i < n
        invariant
            i <= n,
            n == line@.len(),
            out@ == normalize_tabs(line@.subrange(0, i as int)),
        decreases n - i,
    {
        let c = line.get_char(i);
        if c == '\t' {
            push_char(&mut out, ' ');
        } else {
            push_char(&mut out, c);
        }
        proof {
            assert(normalize_tabs(line@.subrange(0, i + 1)) =~= out@);
        }
        i += 1;
    }
    proof {
        assert(line@.subrange(0, n as int) =~= line@);
    }
    out
}

/// The non-empty elements of `parts`, in order.
pub open spec fn nonempty_tokens(parts: Seq<Seq<char>>) -> Seq<Seq<char>>
    decreases parts.len(),
{
    if parts.len() == 0 {
        Seq::empty()
    } else if parts[0].len() == 0 {
        nonempty_tokens(parts.drop_first())
    } else {
        seq![parts[0]] + nonempty_tokens(parts.drop_first())
    }
}

/// Keeps the non-empty strings of `parts`, in order.
pub fn keep_nonempty(parts: &Vec<String>) -> (tokens: Vec<String>)
    ensures
        views_of(tokens@) == nonempty_tokens(views_of(parts@)),
{
    let n = parts.len();
    let ghost pv = views_of(parts@);
    let mut out: Vec<String> = Vec::new();
    let mut i: usize = 0;
    proof {
        assert(pv.subrange(0, n as int) =~= pv);
        assert(views_of(out@) + nonempty_tokens(pv.subrange(0, n as int)) =~~= nonempty_tokens(
            pv,
        ));
    }
    while i < n
        invariant
            i <= n,
            n == parts@.len(),
            pv == views_of(parts@),
            nonempty_tokens(pv) == views_of(out@) + nonempty_tokens(
                pv.subrange(i as int, n as int),
            ),
        decreases n - i,
    {
        let ghost t = pv.subrange(i as int, n as int);
        proof {
            assert(t[0] == pv[i as int]);
            assert(t.drop_first() =~= pv.subrange(i as int + 1, n as int));
        }
        let p = &parts[i];
        if !p.as_str().is_empty() {
            let ghost out_before = out@;
            out.push(p.clone());
            proof {
                assert(views_of(out_before) + (seq![pv[i as int]] + nonempty_tokens(
                    pv.subrange(i as int + 1, n as int),
                )) =~~= views_of(out@) + nonempty_tokens(pv.subrange(i as int + 1, n as int)));
            }
        }
        i += 1;
    }
    proof {
        assert(pv.subrange(n as int, n as int) =~= Seq::<Seq<char>>::empty());
        assert(views_of(out@) + Seq::<Seq<char>>::empty() =~~= views_of(out@));
    }
    out
}

/// The whitespace-separated tokens of a line: tabs count as spaces, and
/// runs of separators collapse.
pub open spec fn line_tokens(s: Seq<char>) -> Seq<Seq<char>> {
    nonempty_tokens(split_on(normalize_tabs(s), ' '))
}

/// Extracts the whitespace-separated tokens of `line`, in order.
pub fn tokenize(line: &str) -> (tokens: Vec<String>)
    ensures
        views_of(tokens@) == line_tokens(line@),
{
    let norm = replace_tabs(line);
    let parts = split_char(norm.as_str(), ' ');
    keep_nonempty(&parts)
}

/// `s` with one trailing carriage return removed, if it ends in one.
pub open spec fn strip_cr(s: Seq<char>) -> Seq<char> {
    if s.len() > 0 && s.last() == '\r' {
        s.drop_last()
    } else {
        s
    }
}

/// The lines of `s`: the parts between newline characters, each with one
/// trailing carriage return removed, and without the empty part that a
/// trailing newline would add.
pub open spec fn lines_of(s: Seq<char>) -> Seq<Seq<char>> {
    let parts = split_on(s, '\n');
    let kept = if parts.last().len() == 0 {
        parts.drop_last()
    } else {
        parts
    };
    kept.map_values(|l: Seq<char>| strip_cr(l))
}

/// Splits `content` into its lines, handling both bare newlines and
/// carriage-return-newline endings.
pub fn split_lines(content: &str) -> (lines: Vec<String>)
    ensures
        views_of(lines@) == lines_of(content@),
{
    let mut parts = split_char(content, '\n');
    let ghost all_parts = views_of(parts@);
    proof {
        lemma_split_on_nonempty(content@, '\n');
    }
    if parts[parts.len() - 1].as_str().is_empty() {
        let ghost before = parts@;
        parts.pop();
        proof {
            assert(views_of(parts@) =~~= views_of(before).drop_last());
        }
    }
    let ghost kept = views_of(parts@);
    let n = parts.len();
    let mut out: Vec<String> = Vec::new();
    let mut i: usize = 0;
    while i < n
        invariant
            i <= n,
            n == parts@.len(),
            kept == views_of(parts@),
            views_of(out@) == kept.subrange(0, i as int).map_values(|l: Seq<char>| strip_cr(l)),
        decreases n - i,
    {
        let p = &parts[i];
        let len = p.as_str().unicode_len();
        let ghost out_before = out@;
        if len > 0 && p.as_str().get_char(len - 1) == '\r' {
            let stripped = p.as_str().substring_char(0, len - 1).to_owned();
            proof {
                assert(stripped@ =~= strip_cr(kept[i as int]));
            }
            out.push(stripped);
        } else {
            out.push(p.clone());
        }
        proof {
            assert(kept.subrange(0, i + 1) =~= kept.subrange(0, i as int).push(kept[i as int]));
            assert(views_of(out@) =~= views_of(out_before).push(strip_cr(kept[i as int])));
            assert(views_of(out@) =~~= kept.subrange(0, i + 1).map_values(
                |l: Seq<char>| strip_cr(l),
            ));
        }
        i += 1;
    }
    proof {
        assert(kept.subrange(0, n as int) =~= kept);
        assert(views_of(out@) =~~= lines_of(content@));
    }
    out
}

} // verus!
