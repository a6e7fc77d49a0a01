use vstd::prelude::*;
use crate::kv::{kv_view, KvModel};
use crate::text::{chars_of, push_char, strings, trim, trim_end, trim_start, trim_str, white_space};
use crate::ConfigError;

verus! {

/// The pieces of `s` between occurrences of `sep`; a text without `sep`
/// is one piece, and the empty text is one empty piece.
pub open spec fn split(s: Seq<char>, sep: char) -> Seq<Seq<char>>
    decreases s.len(),
{
    if s.len() == 0 {
        seq![Seq::empty()]
    } else {
        let parts = split(s.drop_last(), sep);
        if s.last() == sep {
            parts.push(Seq::empty())
        } else {
            parts.update(parts.len() - 1, parts.last().push(s.last()))
        }
    }
}

/// A line that holds only white space.
pub open spec fn blank(l: Seq<char>) -> bool {
    trim(l).len() == 0
}

/// The pair on a line `key = value`: the text before the first `=` and the
/// text up to the next `=`, both without surrounding white space; `None`
/// when the line has no `=`.
pub open spec fn parse_line(l: Seq<char>) -> Option<(Seq<char>, Seq<char>)> {
    let parts = split(l, '=');
    if parts.len() < 2 {
        None
    } else {
        Some((trim(parts[0]), trim(parts[1])))
    }
}

/// The pairs of the non-blank lines, in order; `None` when one of them has
/// no `=`.
pub open spec fn parse_lines(ls: Seq<Seq<char>>) -> Option<KvModel>
    decreases ls.len(),
{
    if ls.len() == 0 {
        Some(Seq::empty())
    } else {
        match parse_lines(ls.drop_last()) {
            None => None,
            Some(kv) => if blank(ls.last()) {
                Some(kv)
            } else {
                match parse_line(ls.last()) {
                    None => None,
                    Some(p) => Some(kv.push(p)),
                }
            },
        }
    }
}

/// The pairs that a config text holds.
pub open spec fn parse_text(t: Seq<char>) -> Option<KvModel> {
    parse_lines(split(t, '\n'))
}

/// The length of the longest key.
pub open spec fn key_width(kv: KvModel) -> nat
    decreases kv.len(),
{
    if kv.len() == 0 {
        0
    } else {
        let w = key_width(kv.drop_last());
        if kv.last().0.len() > w {
            kv.last().0.len()
        } else {
            w
        }
    }
}

/// `n` spaces.
pub open spec fn spaces(n: nat) -> Seq<char> {
    Seq::new(n, |i: int| ' ')
}

/// A line without its line break: the key padded with spaces to `width`,
/// then ` = ` and the value.
pub open spec fn line_body(k: Seq<char>, v: Seq<char>, width: nat) -> Seq<char> {
    k + spaces((width - k.len()) as nat) + seq![' ', '=', ' '] + v
}

/// The lines of the pairs of `kv`, keys padded to `width`, each ended by a
/// line break.
pub open spec fn lines_text(kv: KvModel, width: nat) -> Seq<char>
    decreases kv.len(),
{
    if kv.len() == 0 {
        Seq::empty()
    } else {
        lines_text(kv.drop_last(), width) + line_body(kv.last().0, kv.last().1, width).push('\n')
    }
}

/// The text of a config file holding `kv`, keys padded to the longest one.
pub open spec fn config_text(kv: KvModel) -> Seq<char> {
    lines_text(kv, key_width(kv))
}

/// The pieces of `cs` between occurrences of `sep`.
pub fn split_chars(cs: &Vec<char>, sep: char) -> (r: Vec<String>)
    ensures
        strings(r@) == split(cs@, sep),
{
    let mut parts: Vec<String> = Vec::new();
    let mut cur = String::new();
    let mut i: usize = 0;
    while i < cs.len()
        invariant
            i <= cs@.len(),
            strings(parts@).push(cur@) == split(cs@.take(i as int), sep),
        decreases cs@.len() - i,
    {
        let ghost before = strings(parts@).push(cur@);
        assert(cs@.take(i + 1).drop_last() =~= cs@.take(i as int));
        if cs[i] == sep {
            parts.push(cur);
            cur = String::new();
            assert(strings(parts@).push(cur@) =~= before.push(Seq::empty()));
        } else {
            push_char(&mut cur, cs[i]);
            assert(strings(parts@).push(cur@) =~= before.update(before.len() - 1, before.last().push(cs@[i as int])));
        }
        i = i + 1;
    }
    assert(cs@.take(i as int) =~= cs@);
    parts.push(cur);
    parts
}

/// The lines of a text: the pieces between line breaks.
pub fn split_lines(text: &str) -> (r: Vec<String>)
    ensures
        strings(r@) == split(text@, '\n'),
{
    split_chars(&chars_of(text), '\n')
}

/// The pairs of the non-blank lines `key = value`, in order. Fails with
/// `MalformedLine` when such a line holds no `=`.
pub fn parse_config(lines: &Vec<String>) -> (r: Result<Vec<(String, String)>, ConfigError>)
    ensures
        parse_lines(strings(lines@)) matches Some(kv) ==> r matches Ok(out) && kv_view(out@) == kv,
        parse_lines(strings(lines@)) is None ==> r == Err::<Vec<(String, String)>, ConfigError>(ConfigError::MalformedLine),
{
    let ghost ls = strings(lines@);
    let mut out: Vec<(String, String)> = Vec::new();
    let mut i: usize = 0;
    while i < lines.len()
        invariant
            i <= lines@.len(),
            ls == strings(lines@),
            parse_lines(ls.take(i as int)) == Some(kv_view(out@)),
        decreases lines@.len() - i,
    {
        assert(ls.take(i + 1).drop_last() =~= ls.take(i as int));
        assert(ls.take(i + 1).last() == lines@[i as int]@);
        let t = trim_str(lines[i].as_str());
        if t.as_str().unicode_len() > 0 {
            let parts = split_chars(&chars_of(lines[i].as_str()), '=');
            if parts.len() < 2 {
                proof {
                    lemma_parse_lines_none(ls, i as int + 1);
                }
                return Err(ConfigError::MalformedLine);
            }
            let k = trim_str(parts[0].as_str());
            let v = trim_str(parts[1].as_str());
            let ghost before = kv_view(out@);
            out.push((k, v));
            assert(kv_view(out@) =~= before.push((k@, v@)));
        }
        i = i + 1;
    }
    assert(ls.take(i as int) =~= ls);
    Ok(out)
}

/// Once the lines of a prefix fail to parse, the whole text fails.
proof fn lemma_parse_lines_none(ls: Seq<Seq<char>>, i: int)
    requires
        0 <= i <= ls.len(),
        parse_lines(ls.take(i)) is None,
    ensures
        parse_lines(ls) is None,
    decreases ls.len() - i,
{
    if i < ls.len() {
        assert(ls.take(i + 1).drop_last() =~= ls.take(i));
        lemma_parse_lines_none(ls, i + 1);
    } else {
        assert(ls.take(i) =~= ls);
    }
}

/// The pairs of a config text.
pub fn parse_text_config(text: &str) -> (r: Result<Vec<(String, String)>, ConfigError>)
    ensures
        parse_text(text@) matches Some(kv) ==> r matches Ok(out) && kv_view(out@) == kv,
        parse_text(text@) is None ==> r == Err::<Vec<(String, String)>, ConfigError>(ConfigError::MalformedLine),
{
    let lines = split_lines(text);
    parse_config(&lines)
}

/// Appends the characters of `s`.
pub fn push_text(r: &mut String, s: &str)
    ensures
        final(r)@ == old(r)@ + s@,
{
    let cs = chars_of(s);
    let mut i: usize = 0;
    while i < cs.len()
        invariant
            i <= cs@.len(),
            cs@ == s@,
            r@ == old(r)@ + cs@.take(i as int),
        decreases cs@.len() - i,
    {
        push_char(r, cs[i]);
        i = i + 1;
        assert(r@ =~= old(r)@ + cs@.take(i as int));
    }
    assert(cs@.take(i as int) =~= cs@);
}

/// The text of a config file holding `kvpairs`: one line `key = value` per
/// pair, in order, keys padded with spaces to the longest one.
pub fn render_config(kvpairs: &Vec<(String, String)>) -> (r: String)
    ensures
        r@ == config_text(kv_view(kvpairs@)),
{
    let ghost kv = kv_view(kvpairs@);
    let mut width: usize = 0;
    let mut i: usize = 0;
    while i < kvpairs.len()
        invariant
            i <= kvpairs@.len(),
            kv == kv_view(kvpairs@),
            width == key_width(kv.take(i as int)),
        decreases kvpairs@.len() - i,
    {
        assert(kv.take(i + 1).drop_last() =~= kv.take(i as int));
        let len = kvpairs[i].0.as_str().unicode_len();
        if len > width {
            width = len;
        }
        i = i + 1;
    }
    assert(kv.take(i as int) =~= kv);
    let mut r = String::new();
    let mut i: usize = 0;
    while i < kvpairs.len()
        invariant
            i <= kvpairs@.len(),
            kv == kv_view(kvpairs@),
            width == key_width(kv),
            r@ == lines_text(kv.take(i as int), width as nat),
        decreases kvpairs@.len() - i,
    {
        proof {
            lemma_key_width(kv, i as int);
        }
        assert(kv.take(i + 1).drop_last() =~= kv.take(i as int));
        let ghost before = r@;
        let key = kvpairs[i].0.as_str();
        push_text(&mut r, key);
        let len = key.unicode_len();
        let mut pad = len;
        while pad < width
            invariant
                len <= pad <= width,
                r@ == before + key@ + spaces((pad - len) as nat),
            decreases width - pad,
        {
            push_char(&mut r, ' ');
            pad = pad + 1;
            assert(r@ =~= before + key@ + spaces((pad - len) as nat));
        }
        push_char(&mut r, ' ');
        push_char(&mut r, '=');
        push_char(&mut r, ' ');
        push_text(&mut r, kvpairs[i].1.as_str());
        push_char(&mut r, '\n');
        assert(r@ =~= before + line_body(kv[i as int].0, kv[i as int].1, width as nat).push('\n'));
        i = i + 1;
    }
    assert(kv.take(i as int) =~= kv);
    r
}

/// No key is longer than `key_width`.
proof fn lemma_key_width(kv: KvModel, i: int)
    requires
        0 <= i < kv.len(),
    ensures
        kv[i].0.len() <= key_width(kv),
    decreases kv.len(),
{
    if i < kv.len() - 1 {
        lemma_key_width(kv.drop_last(), i);
    }
}

/// Appending text without `sep` extends the last piece.
proof fn lemma_split_extend(s: Seq<char>, t: Seq<char>, sep: char)
    requires
        !t.contains(sep),
    ensures
        split(s + t, sep) == split(s, sep).update(split(s, sep).len() - 1, split(s, sep).last() + t),
        split(s + t, sep).len() == split(s, sep).len(),
    decreases t.len(),
{
    lemma_split_nonempty(s, sep);
    if t.len() == 0 {
        assert(s + t =~= s);
        assert(split(s, sep).last() + t =~= split(s, sep).last());
        assert(split(s, sep).update(split(s, sep).len() - 1, split(s, sep).last()) =~= split(s, sep));
    } else {
        let t0 = t.drop_last();
        assert(!t0.contains(sep)) by {
            if t0.contains(sep) {
                let j = choose|j: int| 0 <= j < t0.len() && t0[j] == sep;
                assert(t[j] == sep);
            }
        }
        assert(t.last() != sep) by {
            assert(t[t.len() - 1] == t.last());
        }
        lemma_split_extend(s, t0, sep);
        assert((s + t).drop_last() =~= s + t0);
        assert((s + t).last() == t.last());
        let p = split(s, sep);
        let q = split(s + t0, sep);
        assert(q.last() == p.last() + t0);
        assert((p.last() + t0).push(t.last()) =~= p.last() + t);
        assert(split(s + t, sep) == q.update(q.len() - 1, q.last().push(t.last())));
        assert(split(s + t, sep) =~= p.update(p.len() - 1, p.last() + t));
    }
}

/// Splitting gives at least one piece.
pub proof fn lemma_split_nonempty(s: Seq<char>, sep: char)
    ensures
        split(s, sep).len() >= 1,
    decreases s.len(),
{
    if s.len() > 0 {
        lemma_split_nonempty(s.drop_last(), sep);
    }
}

/// Text without `sep` is a single piece.
proof fn lemma_split_single(t: Seq<char>, sep: char)
    requires
        !t.contains(sep),
    ensures
        split(t, sep) == seq![t],
{
    lemma_split_extend(Seq::empty(), t, sep);
    assert(Seq::<char>::empty() + t =~= t);
    assert(split(Seq::<char>::empty(), sep).update(0, Seq::<char>::empty() + t) =~= seq![t]);
}

/// Leading white space of `x` does not survive trimming `x + y`.
proof fn lemma_trim_start_space(x: Seq<char>, y: Seq<char>)
    requires
        forall|i: int| 0 <= i < x.len() ==> white_space(#[trigger] x[i]),
    ensures
        trim_start(x + y) == trim_start(y),
    decreases x.len(),
{
    if x.len() == 0 {
        assert(x + y =~= y);
    } else {
        assert((x + y)[0] == x[0]);
        assert((x + y).drop_first() =~= x.drop_first() + y);
        lemma_trim_start_space(x.drop_first(), y);
    }
}

/// Trailing white space `y` does not survive trimming `x + y`.
proof fn lemma_trim_end_space(x: Seq<char>, y: Seq<char>)
    requires
        forall|i: int| 0 <= i < y.len() ==> white_space(#[trigger] y[i]),
    ensures
        trim_end(x + y) == trim_end(x),
    decreases y.len(),
{
    if y.len() == 0 {
        assert(x + y =~= x);
    } else {
        assert((x + y).last() == y.last());
        assert((x + y).drop_last() =~= x + y.drop_last());
        lemma_trim_end_space(x, y.drop_last());
    }
}

/// Trimming never lengthens a text, and shortens one that starts or ends
/// with white space.
proof fn lemma_trim_len(s: Seq<char>)
    ensures
        trim_start(s).len() <= s.len(),
        trim_end(s).len() <= s.len(),
        s.len() > 0 && white_space(s[0]) ==> trim_start(s).len() < s.len(),
        s.len() > 0 && white_space(s.last()) ==> trim_end(s).len() < s.len(),
    decreases s.len(),
{
    if s.len() > 0 {
        lemma_trim_len(s.drop_first());
        lemma_trim_len(s.drop_last());
    }
}

/// A non-empty text that trimming keeps neither starts nor ends with white
/// space.
proof fn lemma_trimmed(s: Seq<char>)
    requires
        trim(s) == s,
        s.len() > 0,
    ensures
        !white_space(s[0]),
        !white_space(s.last()),
{
    lemma_trim_len(s);
    lemma_trim_len(trim_start(s));
    if white_space(s[0]) {
        assert(trim(s).len() < s.len());
    }
    assert(trim_start(s) == s);
}

/// A key or value that a config line carries unchanged: no `=`, no line
/// break, and no white space at either end.
pub open spec fn plain(s: Seq<char>) -> bool {
    !s.contains('=') && !s.contains('\n') && trim(s) == s
}

/// The line of a plain pair parses back to that pair.
proof fn lemma_line_round_trip(k: Seq<char>, v: Seq<char>, width: nat)
    requires
        plain(k),
        plain(v),
    ensures
        parse_line(line_body(k, v, width)) == Some((k, v)),
        !blank(line_body(k, v, width)),
{
    let gap = spaces((width - k.len()) as nat) + seq![' '];
    let a = k + gap;
    let b = seq![' '] + v;
    let body = line_body(k, v, width);
    assert(body =~= a + seq!['='] + b);
    assert(forall|i: int| 0 <= i < gap.len() ==> white_space(#[trigger] gap[i]));
    assert(!a.contains('=')) by {
        if a.contains('=') {
            let j = choose|j: int| 0 <= j < a.len() && a[j] == '=';
            if j < k.len() {
                assert(k[j] == '=');
            } else {
                assert(white_space(gap[j - k.len()]));
            }
        }
    }
    assert(!b.contains('=')) by {
        if b.contains('=') {
            let j = choose|j: int| 0 <= j < b.len() && b[j] == '=';
            assert(v[j - 1] == '=');
        }
    }
    lemma_split_single(a, '=');
    assert(split(a.push('='), '=') == seq![a, Seq::<char>::empty()]) by {
        assert(a.push('=').drop_last() =~= a);
        assert(seq![a].push(Seq::<char>::empty()) =~= seq![a, Seq::<char>::empty()]);
    }
    lemma_split_extend(a.push('='), b, '=');
    assert(a.push('=') + b =~= body);
    assert(split(body, '=') =~= seq![a, b]) by {
        assert(Seq::<char>::empty() + b =~= b);
    }
    // the key
    if k.len() == 0 {
        assert(a =~= gap + Seq::<char>::empty());
        lemma_trim_start_space(gap, Seq::<char>::empty());
    } else {
        lemma_trimmed(k);
        assert((a)[0] == k[0]);
        assert(trim_start(a) == a);
        lemma_trim_end_space(k, gap);
        assert(trim_start(k) == k);
    }
    // the value
    lemma_trim_start_space(seq![' '], v);
    // the line is not blank: `=` survives trimming
    let e = (k.len() + spaces((width - k.len()) as nat).len() + 1) as int;
    assert(body[e] == '=');
    lemma_trim_nonblank(body, e);
}

/// A text with a character that is not white space is not blank.
proof fn lemma_trim_nonblank(s: Seq<char>, e: int)
    requires
        0 <= e < s.len(),
        !white_space(s[e]),
    ensures
        trim(s).len() > 0,
{
    lemma_trim_start_keeps(s, e);
    let t = trim_start(s);
    lemma_trim_end_zero(t, t.len() - (s.len() - e));
}

/// Trimming the start keeps every character from the first one that is not
/// white space.
proof fn lemma_trim_start_keeps(s: Seq<char>, e: int)
    requires
        0 <= e < s.len(),
        !white_space(s[e]),
    ensures
        trim_start(s).len() >= s.len() - e,
        trim_start(s)[trim_start(s).len() - (s.len() - e)] == s[e],
    decreases s.len(),
{
    if white_space(s[0]) {
        assert(e > 0);
        assert(s.drop_first()[e - 1] == s[e]);
        lemma_trim_start_keeps(s.drop_first(), e - 1);
    }
}

/// Trimming the end keeps every character up to the last one that is not
/// white space.
proof fn lemma_trim_end_zero(s: Seq<char>, i: int)
    requires
        0 <= i < s.len(),
        !white_space(s[i]),
    ensures
        trim_end(s).len() > i,
    decreases s.len(),
{
    if i < s.len() - 1 && white_space(s.last()) {
        lemma_trim_end_zero(s.drop_last(), i);
    }
}

/// The lines of the text of plain pairs are their bodies, then an empty
/// piece after the last line break.
proof fn lemma_split_lines_text(kv: KvModel, width: nat)
    requires
        forall|i: int| 0 <= i < kv.len() ==> plain((#[trigger] kv[i]).0) && plain(kv[i].1),
    ensures
        split(lines_text(kv, width), '\n') == kv.map_values(|p: (Seq<char>, Seq<char>)| line_body(p.0, p.1, width)).push(Seq::empty()),
    decreases kv.len(),
{
    let bodies = kv.map_values(|p: (Seq<char>, Seq<char>)| line_body(p.0, p.1, width));
    if kv.len() == 0 {
        assert(bodies.push(Seq::empty()) =~= seq![Seq::<char>::empty()]);
    } else {
        let init = kv.drop_last();
        assert forall|i: int| 0 <= i < init.len() implies plain((#[trigger] init[i]).0) && plain(init[i].1) by {
            assert(init[i] == kv[i]);
        }
        lemma_split_lines_text(init, width);
        let prev = lines_text(init, width);
        let (k, v) = kv.last();
        assert(plain(kv[kv.len() - 1].0));
        let body = line_body(k, v, width);
        assert(!body.contains('\n')) by {
            if body.contains('\n') {
                let j = choose|j: int| 0 <= j < body.len() && body[j] == '\n';
                let gap = spaces((width - k.len()) as nat);
                if j < k.len() {
                    assert(k[j] == '\n');
                } else if j < k.len() + gap.len() + 3 {
                } else {
                    assert(v[j - k.len() - gap.len() - 3] == '\n');
                }
            }
        }
        lemma_split_extend(prev, body, '\n');
        assert(lines_text(kv, width) =~= (prev + body).push('\n'));
        assert((prev + body).push('\n').drop_last() =~= prev + body);
        let prev_bodies = init.map_values(|p: (Seq<char>, Seq<char>)| line_body(p.0, p.1, width));
        assert(Seq::<char>::empty() + body =~= body);
        assert(bodies =~= prev_bodies.push(body));
        assert(split(lines_text(kv, width), '\n') =~= bodies.push(Seq::empty()));
    }
}

/// The pairs of the bodies of plain pairs are those pairs.
proof fn lemma_parse_bodies(kv: KvModel, width: nat)
    requires
        forall|i: int| 0 <= i < kv.len() ==> plain((#[trigger] kv[i]).0) && plain(kv[i].1),
    ensures
        parse_lines(kv.map_values(|p: (Seq<char>, Seq<char>)| line_body(p.0, p.1, width))) == Some(kv),
    decreases kv.len(),
{
    let bodies = kv.map_values(|p: (Seq<char>, Seq<char>)| line_body(p.0, p.1, width));
    if kv.len() > 0 {
        let init = kv.drop_last();
        assert forall|i: int| 0 <= i < init.len() implies plain((#[trigger] init[i]).0) && plain(init[i].1) by {
            assert(init[i] == kv[i]);
        }
        lemma_parse_bodies(init, width);
        assert(bodies.drop_last() =~= init.map_values(|p: (Seq<char>, Seq<char>)| line_body(p.0, p.1, width)));
        assert(plain(kv[kv.len() - 1].0));
        lemma_line_round_trip(kv.last().0, kv.last().1, width);
        assert(init.push(kv.last()) =~= kv);
    }
}

/// Rendering pairs as a config text and parsing that text gives the same
/// pairs in the same order, provided no key or value holds `=` or a line
/// break or starts or ends with white space.
pub proof fn lemma_round_trip(kv: KvModel)
    requires
        forall|i: int| 0 <= i < kv.len() ==> plain((#[trigger] kv[i]).0) && plain(kv[i].1),
    ensures
        parse_text(config_text(kv)) == Some(kv),
{
    let width = key_width(kv);
    let bodies = kv.map_values(|p: (Seq<char>, Seq<char>)| line_body(p.0, p.1, width));
    lemma_split_lines_text(kv, width);
    lemma_parse_bodies(kv, width);
    assert(bodies.push(Seq::empty()).drop_last() =~= bodies);
    lemma_trim_start_space(Seq::<char>::empty(), Seq::<char>::empty());
    assert(blank(Seq::<char>::empty()));
}

} // verus!
