//! Text helpers shared by path resolution and command parsing: character
//! classification, separator-based field splitting, and string equality.

use vstd::prelude::*;

verus! {

/// The separator characters the command line is split on.
pub open spec fn is_blank(c: char) -> bool {
    c == ' ' || c == '\t' || c == '\n' || c == '\r'
}

/// Predicate selecting the path separator.
pub open spec fn slash_sep() -> spec_fn(char) -> bool {
    |c: char| c == '/'
}

/// Predicate selecting command-line blanks.
pub open spec fn blank_sep() -> spec_fn(char) -> bool {
    |c: char| is_blank(c)
}

/// Splits `s` on `sep` characters, discarding empty fields; `cur` is the
/// partial field read so far.
pub open spec fn split_pred(s: Seq<char>, sep: spec_fn(char) -> bool, cur: Seq<char>) -> Seq<
    Seq<char>,
>
    decreases s.len(),
{
    if s.len() == 0 {
        if cur.len() == 0 {
            seq![]
        } else {
            seq![cur]
        }
    } else if sep(s[0]) {
        (if cur.len() == 0 {
            seq![]
        } else {
            seq![cur]
        }) + split_pred(s.subrange(1, s.len() as int), sep, seq![])
    } else {
        split_pred(s.subrange(1, s.len() as int), sep, cur.push(s[0]))
    }
}

/// The non-empty fields of `s` between separator characters.
pub open spec fn fields_of(s: Seq<char>, sep: spec_fn(char) -> bool) -> Seq<Seq<char>> {
    split_pred(s, sep, seq![])
}

/// The segments of a path: the non-empty fields between slashes, so `/`,
/// `//a/` and `a/b` all collapse sensibly.
pub open spec fn path_segments(p: Seq<char>) -> Seq<Seq<char>> {
    fields_of(p, slash_sep())
}

/// The whitespace-separated words of a command line.
pub open spec fn words_of(s: Seq<char>) -> Seq<Seq<char>> {
    fields_of(s, blank_sep())
}

/// A well-formed field: non-empty and free of separator characters.
pub open spec fn field_wf(f: Seq<char>, sep: spec_fn(char) -> bool) -> bool {
    f.len() > 0 && (forall|k: int| 0 <= k < f.len() ==> !sep(f[k]))
}

/// Path segments joined back with single slashes, no leading or trailing
/// slash: the collapsed form of a path.
pub open spec fn joined_path(segs: Seq<Seq<char>>) -> Seq<char>
    decreases segs.len(),
{
    if segs.len() == 0 {
        seq![]
    } else if segs.len() == 1 {
        segs[0]
    } else {
        segs[0] + seq!['/'] + joined_path(segs.subrange(1, segs.len() as int))
    }
}

/// The path with redundant, leading and trailing slashes removed.
pub open spec fn collapsed(p: Seq<char>) -> Seq<char> {
    joined_path(path_segments(p))
}

/// Every field that splitting produces is non-empty and separator-free,
/// provided the partial field read so far is separator-free.
proof fn lemma_split_fields_wf(s: Seq<char>, sep: spec_fn(char) -> bool, cur: Seq<char>)
    requires
        forall|k: int| 0 <= k < cur.len() ==> !sep(cur[k]),
    ensures
        forall|i: int|
            0 <= i < split_pred(s, sep, cur).len() ==> field_wf(
                #[trigger] split_pred(s, sep, cur)[i],
                sep,
            ),
    decreases s.len(),
{
    if s.len() == 0 {
        if cur.len() > 0 {
            assert(split_pred(s, sep, cur) =~= seq![cur]);
            assert(split_pred(s, sep, cur)[0] == cur);
        }
    } else {
        let tail = s.subrange(1, s.len() as int);
        if sep(s[0]) {
            lemma_split_fields_wf(tail, sep, seq![]);
            let head: Seq<Seq<char>> = if cur.len() == 0 {
                seq![]
            } else {
                seq![cur]
            };
            assert forall|i: int| 0 <= i < split_pred(s, sep, cur).len() implies field_wf(
                #[trigger] split_pred(s, sep, cur)[i],
                sep,
            ) by {
                if i < head.len() {
                    assert(split_pred(s, sep, cur)[i] == cur);
                } else {
                    assert(split_pred(s, sep, cur)[i] == split_pred(tail, sep, seq![])[i
                        - head.len()]);
                }
            }
        } else {
            lemma_split_fields_wf(tail, sep, cur.push(s[0]));
            assert forall|i: int| 0 <= i < split_pred(s, sep, cur).len() implies field_wf(
                #[trigger] split_pred(s, sep, cur)[i],
                sep,
            ) by {
                assert(split_pred(s, sep, cur)[i] == split_pred(tail, sep, cur.push(s[0]))[i]);
            }
        }
    }
}

/// The fields of a path are non-empty and slash-free.
pub proof fn lemma_path_segments_wf(p: Seq<char>)
    ensures
        forall|i: int|
            0 <= i < path_segments(p).len() ==> field_wf(#[trigger] path_segments(p)[i],
            slash_sep()),
{
    lemma_split_fields_wf(p, slash_sep(), seq![]);
}

/// Splitting a wholly separator-free suffix yields one field: what was read
/// so far followed by the suffix, unless both are empty.
proof fn lemma_split_nosep(s: Seq<char>, sep: spec_fn(char) -> bool, cur: Seq<char>)
    requires
        forall|k: int| 0 <= k < s.len() ==> !sep(s[k]),
    ensures
        split_pred(s, sep, cur) == if cur.len() + s.len() == 0 {
            Seq::<Seq<char>>::empty()
        } else {
            seq![cur + s]
        },
    decreases s.len(),
{
    if s.len() == 0 {
        if cur.len() > 0 {
            assert(cur + s =~= cur);
        }
        assert(split_pred(s, sep, cur) =~= (if cur.len() + s.len() == 0 {
            Seq::<Seq<char>>::empty()
        } else {
            seq![cur + s]
        }));
    } else {
        let tail = s.subrange(1, s.len() as int);
        lemma_split_nosep(tail, sep, cur.push(s[0]));
        assert(cur.push(s[0]) + tail =~= cur + s);
    }
}

/// A separator-free prefix is absorbed into the partial field.
proof fn lemma_split_prefix(a: Seq<char>, b: Seq<char>, sep: spec_fn(char) -> bool, cur: Seq<char>)
    requires
        forall|k: int| 0 <= k < a.len() ==> !sep(a[k]),
    ensures
        split_pred(a + b, sep, cur) == split_pred(b, sep, cur + a),
    decreases a.len(),
{
    if a.len() == 0 {
        assert(a + b =~= b);
        assert(cur + a =~= cur);
    } else {
        let s = a + b;
        assert(s[0] == a[0]);
        assert(s.subrange(1, s.len() as int) =~= a.subrange(1, a.len() as int) + b);
        lemma_split_prefix(a.subrange(1, a.len() as int), b, sep, cur.push(a[0]));
        assert(cur.push(a[0]) + a.subrange(1, a.len() as int) =~= cur + a);
    }
}

/// Splitting the joined form of well-formed segments gives the segments back.
pub proof fn lemma_split_of_join(segs: Seq<Seq<char>>)
    requires
        forall|i: int| 0 <= i < segs.len() ==> field_wf(#[trigger] segs[i], slash_sep()),
    ensures
        path_segments(joined_path(segs)) == segs,
    decreases segs.len(),
{
    let sep = slash_sep();
    if segs.len() == 0 {
        assert(path_segments(joined_path(segs)) =~= segs);
    } else if segs.len() == 1 {
        lemma_split_prefix(segs[0], Seq::<char>::empty(), sep, seq![]);
        assert(segs[0] + Seq::<char>::empty() =~= segs[0]);
        assert(Seq::<char>::empty() + segs[0] =~= segs[0]);
        lemma_split_nosep(Seq::<char>::empty(), sep, segs[0]);
        assert(segs[0] + Seq::<char>::empty() =~= segs[0]);
        assert(path_segments(joined_path(segs)) =~= segs);
    } else {
        let rest = segs.subrange(1, segs.len() as int);
        let tail_join = seq!['/'] + joined_path(rest);
        assert(joined_path(segs) =~= segs[0] + tail_join);
        lemma_split_prefix(segs[0], tail_join, sep, seq![]);
        assert(Seq::<char>::empty() + segs[0] =~= segs[0]);
        assert(tail_join[0] == '/');
        assert(tail_join.subrange(1, tail_join.len() as int) =~= joined_path(rest));
        lemma_split_of_join(rest);
        assert(split_pred(tail_join, sep, segs[0]) == seq![segs[0]] + split_pred(
            joined_path(rest),
            sep,
            seq![],
        ));
        assert(seq![segs[0]] + rest =~= segs);
    }
}

/// Which separator an executable split uses.
enum SepKind {
    Slash,
    Blank,
}

spec fn sep_spec(k: SepKind) -> spec_fn(char) -> bool {
    match k {
        SepKind::Slash => slash_sep(),
        SepKind::Blank => blank_sep(),
    }
}

fn is_sep(k: &SepKind, c: char) -> (r: bool)
    ensures
        r == sep_spec(*k)(c),
{
    match k {
        SepKind::Slash => c == '/',
        SepKind::Blank => c == ' ' || c == '\t' || c == '\n' || c == '\r',
    }
}

proof fn lemma_split_step_sep(s: Seq<char>, sep: spec_fn(char) -> bool, cur: Seq<char>)
    requires
        s.len() > 0,
        sep(s[0]),
    ensures
        split_pred(s, sep, cur) == (if cur.len() == 0 {
            seq![]
        } else {
            seq![cur]
        }) + split_pred(s.subrange(1, s.len() as int), sep, seq![]),
{
}

proof fn lemma_split_step_plain(s: Seq<char>, sep: spec_fn(char) -> bool, cur: Seq<char>)
    requires
        s.len() > 0,
        !sep(s[0]),
    ensures
        split_pred(s, sep, cur) == split_pred(s.subrange(1, s.len() as int), sep, cur.push(s[0])),
{
}

fn split_by(s: &str, k: SepKind) -> (out: Vec<String>)
    ensures
        out.deep_view() == fields_of(s@, sep_spec(k)),
{
    let ghost sep = sep_spec(k);
    let n = s.unicode_len();
    let mut out: Vec<String> = Vec::new();
    let mut start: usize = 0;
    let mut i: usize = 0;
    proof {
        assert(s@.subrange(0, n as int) =~= s@);
        assert(s@.subrange(0, 0) =~= Seq::<char>::empty());
        assert(out.deep_view() + split_pred(s@, sep, seq![]) =~= split_pred(s@, sep, seq![]));
    }
    while i < n
        invariant
            start <= i <= n,
            n == s@.len(),
            sep == sep_spec(k),
            forall|j: int| start <= j < i ==> !sep(s@[j]),
            fields_of(s@, sep) == out.deep_view() + split_pred(
                s@.subrange(i as int, n as int),
                sep,
                s@.subrange(start as int, i as int),
            ),
        decreases n - i,
    {
        let c = s.get_char(i);
        let ghost rest = s@.subrange(i as int, n as int);
        let ghost cur = s@.subrange(start as int, i as int);
        proof {
            assert(rest[0] == s@[i as int]);
            assert(rest.subrange(1, rest.len() as int) =~= s@.subrange(i + 1, n as int));
        }
        if is_sep(&k, c) {
            proof {
                lemma_split_step_sep(rest, sep, cur);
            }
            if start < i {
                let field = s.substring_char(start, i).to_owned();
                let ghost old_dv = out.deep_view();
                out.push(field);
                proof {
                    assert(out.deep_view() =~= old_dv.push(cur));
                    assert(old_dv.push(cur) =~= old_dv + seq![cur]);
                    assert((old_dv + seq![cur]) + split_pred(
                        s@.subrange(i + 1, n as int),
                        sep,
                        seq![],
                    ) =~= old_dv + (seq![cur] + split_pred(
                        s@.subrange(i + 1, n as int),
                        sep,
                        seq![],
                    )));
                }
            } else {
                proof {
                    assert(cur =~= Seq::<char>::empty());
                }
            }
            start = i + 1;
            proof {
                assert(s@.subrange(start as int, i + 1) =~= Seq::<char>::empty());
            }
        } else {
            proof {
                lemma_split_step_plain(rest, sep, cur);
                assert(cur.push(s@[i as int]) =~= s@.subrange(start as int, i + 1));
            }
        }
        i += 1;
    }
    if start < n {
        let field = s.substring_char(start, n).to_owned();
        let ghost old_dv = out.deep_view();
        out.push(field);
        assert(out.deep_view() =~= old_dv.push(s@.subrange(start as int, n as int)));
    }
    proof {
        assert(s@.subrange(n as int, n as int) =~= Seq::<char>::empty());
        assert(out.deep_view() =~= fields_of(s@, sep));
    }
    out
}

/// The path segments of `p`, as owned strings.
pub fn split_path(p: &str) -> (segs: Vec<String>)
    ensures
        segs.deep_view() == path_segments(p@),
{
    split_by(p, SepKind::Slash)
}

/// The whitespace-separated words of `s`, as owned strings.
pub fn split_words(s: &str) -> (words: Vec<String>)
    ensures
        words.deep_view() == words_of(s@),
{
    split_by(s, SepKind::Blank)
}

/// The three pieces concatenated into one owned string.
pub fn concat3(a: &str, b: &str, c: &str) -> (r: String)
    ensures
        r@ == a@ + b@ + c@,
{
    let mut s = a.to_owned();
    s.append(b);
    s.append(c);
    s
}

/// The five pieces concatenated into one owned string.
pub fn concat5(a: &str, b: &str, c: &str, d: &str, e: &str) -> (r: String)
    ensures
        r@ == a@ + b@ + c@ + d@ + e@,
{
    let mut s = a.to_owned();
    s.append(b);
    s.append(c);
    s.append(d);
    s.append(e);
    s
}

/// Character-wise string equality.
pub fn str_eq(a: &str, b: &str) -> (r: bool)
    ensures
        r == (a@ == b@),
{
    let na = a.unicode_len();
    let nb = b.unicode_len();
    if na != nb {
        return false;
    }
    let mut i: usize = 0;
    while i < na
        invariant
            i <= na,
            na == a@.len(),
            na == b@.len(),
            forall|j: int| 0 <= j < i ==> a@[j] == b@[j],
        decreases na - i,
    {
        if a.get_char(i) != b.get_char(i) {
            return false;
        }
        i += 1;
    }
    proof {
        assert(a@ =~= b@);
    }
    true
}

} // verus!
