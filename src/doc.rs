//! Recognising documentation that holds a runnable example: a fenced code
//! block whose info string, split on commas and trimmed, names only
//! attributes under which rustdoc compiles and runs the block.
use vstd::prelude::*;

verus! {

/// Lines are separated by `\n`; the last line of a text is what follows
/// its last separator (possibly nothing).
pub open spec fn split_on(s: Seq<char>, sep: char) -> Seq<Seq<char>>
    decreases s.len(),
{
    if s.len() == 0 {
        seq![Seq::<char>::empty()]
    } else {
        let p = split_on(s.drop_last(), sep);
        if s.last() == sep {
            p.push(Seq::<char>::empty())
        } else {
            p.update(p.len() - 1, p.last().push(s.last()))
        }
    }
}

/// The whitespace that trimming removes: the characters with the Unicode
/// `White_Space` property.
pub open spec fn is_space(c: char) -> bool {
    let u = c as u32;
    (0x9 <= u <= 0xD) || u == 0x20 || u == 0x85 || u == 0xA0 || u == 0x1680 || (0x2000 <= u <= 0x200A)
        || u == 0x2028 || u == 0x2029 || u == 0x202F || u == 0x205F || u == 0x3000
}

pub open spec fn trim_start(s: Seq<char>) -> Seq<char>
    decreases s.len(),
{
    if s.len() > 0 && is_space(s[0]) {
        trim_start(s.drop_first())
    } else {
        s
    }
}

pub open spec fn trim_end(s: Seq<char>) -> Seq<char>
    decreases s.len(),
{
    if s.len() > 0 && is_space(s.last()) {
        trim_end(s.drop_last())
    } else {
        s
    }
}

pub open spec fn trim(s: Seq<char>) -> Seq<char> {
    trim_end(trim_start(s))
}

/// A line without the carriage return that ends it, if any.
pub open spec fn line_text(l: Seq<char>) -> Seq<char> {
    if l.len() > 0 && l.last() == '\r' {
        l.drop_last()
    } else {
        l
    }
}

pub open spec fn fence() -> Seq<char> {
    seq!['`', '`', '`']
}

/// Whether a line opens or closes a fenced block.
pub open spec fn is_fence_line(l: Seq<char>) -> bool {
    l.len() >= 3 && l.subrange(0, 3) == fence()
}

/// The code-block attributes under which rustdoc runs an example.
pub open spec fn runnable_block_attr(t: Seq<char>) -> bool {
    t == Seq::<char>::empty() || t == "rust"@ || t == "should_panic"@ || t == "edition2015"@
        || t == "edition2018"@ || t == "edition2021"@
}

/// Whether an info string names only attributes of runnable examples.
pub open spec fn runnable_info(info: Seq<char>) -> bool {
    forall|k: int|
        0 <= k < split_on(info, ',').len() ==> #[trigger] runnable_block_attr(
            trim(split_on(info, ',')[k]),
        )
}

/// Scans lines `i..` where `in_block` tells whether line `i` lies inside a
/// fenced block: true iff some opening fence has a runnable info string.
/// A line that starts with three backticks opens a block outside one, and
/// closes the block inside one if nothing but whitespace follows them.
pub open spec fn runnable_block_from(ls: Seq<Seq<char>>, i: int, in_block: bool) -> bool
    decreases ls.len() - i,
{
    if i < 0 || i >= ls.len() {
        false
    } else {
        let l = line_text(ls[i]);
        if is_fence_line(l) {
            let info = l.subrange(3, l.len() as int);
            if !in_block {
                runnable_info(info) || runnable_block_from(ls, i + 1, true)
            } else {
                // only a fence without an info string closes a block
                runnable_block_from(ls, i + 1, trim(info).len() != 0)
            }
        } else {
            runnable_block_from(ls, i + 1, in_block)
        }
    }
}

/// Whether documentation holds at least one runnable example.
pub open spec fn doc_has_runnable(doc: Seq<char>) -> bool {
    runnable_block_from(split_on(doc, '\n'), 0, false)
}

/// Whether optional documentation holds at least one runnable example.
pub open spec fn docs_have_runnable(docs: Option<String>) -> bool {
    match docs {
        Some(d) => doc_has_runnable(d@),
        None => false,
    }
}

/// Relies on `str::chars`, collected: the characters of the text in order.
#[verifier::external_body]
pub(crate) fn chars_of(s: &str) -> (r: Vec<char>)
    ensures
        r@ == s@,
{
    s.chars().collect()
}

/// Whether `s[lo..hi]` spells `t`.
pub fn range_is(s: &Vec<char>, lo: usize, hi: usize, t: &str) -> (r: bool)
    requires
        lo <= hi <= s@.len(),
    ensures
        r == (s@.subrange(lo as int, hi as int) == t@),
{
    let n = t.unicode_len();
    if hi - lo != n {
        return false;
    }
    let mut i: usize = 0;
    while i < n
        invariant
            lo <= hi <= s@.len(),
            hi - lo == n,
            n == t@.len(),
            i <= n,
            forall|k: int| 0 <= k < i ==> s@[lo + k] == t@[k],
        decreases n - i,
    {
        if s[lo + i] != t.get_char(i) {
            assert(s@.subrange(lo as int, hi as int)[i as int] != t@[i as int]);
            return false;
        }
        i = i + 1;
    }
    assert(s@.subrange(lo as int, hi as int) =~= t@);
    true
}

/// Splits `s` at every `sep`.
pub fn split_chars(s: &Vec<char>, sep: char) -> (r: Vec<Vec<char>>)
    ensures
        r@.len() == split_on(s@, sep).len(),
        forall|k: int| 0 <= k < r@.len() ==> #[trigger] r@[k]@ == split_on(s@, sep)[k],
{
    let mut done: Vec<Vec<char>> = Vec::new();
    let mut cur: Vec<char> = Vec::new();
    let mut i: usize = 0;
    while i < s.len()
        invariant
            i <= s@.len(),
            done@.len() + 1 == split_on(s@.subrange(0, i as int), sep).len(),
            forall|k: int|
                0 <= k < done@.len() ==> #[trigger] done@[k]@ == split_on(
                    s@.subrange(0, i as int),
                    sep,
                )[k],
            cur@ == split_on(s@.subrange(0, i as int), sep).last(),
        decreases s@.len() - i,
    {
        let c = s[i];
        proof {
            let pre = s@.subrange(0, i as int);
            let nxt = s@.subrange(0, i + 1);
            assert(nxt.drop_last() =~= pre);
            assert(nxt.last() == c);
            reveal_with_fuel(split_on, 2);
        }
        if c == sep {
            done.push(cur);
            cur = Vec::new();
        } else {
            cur.push(c);
        }
        i = i + 1;
    }
    done.push(cur);
    assert(s@.subrange(0, s@.len() as int) =~= s@);
    done
}

/// The bounds of `trim(s[lo..hi])` within `s`.
fn trim_bounds(s: &Vec<char>, lo: usize, hi: usize) -> (r: (usize, usize))
    requires
        lo <= hi <= s@.len(),
    ensures
        lo <= r.0 <= r.1 <= hi,
        s@.subrange(r.0 as int, r.1 as int) == trim(s@.subrange(lo as int, hi as int)),
{
    let mut a = lo;
    while a < hi && is_space_exec(s[a])
        invariant
            lo <= a <= hi <= s@.len(),
            trim_start(s@.subrange(lo as int, hi as int)) == trim_start(
                s@.subrange(a as int, hi as int),
            ),
        decreases hi - a,
    {
        assert(s@.subrange(a as int, hi as int).drop_first() =~= s@.subrange(a + 1, hi as int));
        a = a + 1;
    }
    assert(trim_start(s@.subrange(a as int, hi as int)) == s@.subrange(a as int, hi as int));
    let mut b = hi;
    while b > a && is_space_exec(s[b - 1])
        invariant
            lo <= a <= b <= hi <= s@.len(),
            trim(s@.subrange(lo as int, hi as int)) == trim_end(s@.subrange(a as int, b as int)),
        decreases b - a,
    {
        assert(s@.subrange(a as int, b as int).drop_last() =~= s@.subrange(a as int, b - 1));
        b = b - 1;
    }
    assert(trim_end(s@.subrange(a as int, b as int)) == s@.subrange(a as int, b as int));
    (a, b)
}

fn is_space_exec(c: char) -> (r: bool)
    ensures
        r == is_space(c),
{
    let u = c as u32;
    (0x9 <= u && u <= 0xD) || u == 0x20 || u == 0x85 || u == 0xA0 || u == 0x1680 || (0x2000 <= u && u <= 0x200A)
        || u == 0x2028 || u == 0x2029 || u == 0x202F || u == 0x205F || u == 0x3000
}

/// Whether one code-block attribute is one under which the block runs.
fn attr_is_runnable(s: &Vec<char>, lo: usize, hi: usize) -> (r: bool)
    requires
        lo <= hi <= s@.len(),
    ensures
        r == runnable_block_attr(s@.subrange(lo as int, hi as int)),
{
    if lo == hi {
        assert(s@.subrange(lo as int, hi as int) =~= Seq::<char>::empty());
        return true;
    }
    assert(s@.subrange(lo as int, hi as int).len() > 0);
    assert(s@.subrange(lo as int, hi as int) != Seq::<char>::empty());
    range_is(s, lo, hi, "rust") || range_is(s, lo, hi, "should_panic") || range_is(
        s,
        lo,
        hi,
        "edition2015",
    ) || range_is(s, lo, hi, "edition2018") || range_is(s, lo, hi, "edition2021")
}

/// Whether an info string names only attributes of runnable examples.
pub fn is_runnable_info(info: &Vec<char>) -> (r: bool)
    ensures
        r == runnable_info(info@),
{
    let parts = split_chars(info, ',');
    let mut k: usize = 0;
    while k < parts.len()
        invariant
            k <= parts@.len(),
            parts@.len() == split_on(info@, ',').len(),
            forall|j: int| 0 <= j < parts@.len() ==> #[trigger] parts@[j]@ == split_on(info@, ',')[j],
            forall|j: int| 0 <= j < k ==> #[trigger] runnable_block_attr(trim(split_on(info@, ',')[j])),
        decreases parts@.len() - k,
    {
        let part = &parts[k];
        let (a, b) = trim_bounds(part, 0, part.len());
        assert(part@.subrange(0, part@.len() as int) =~= part@);
        if !attr_is_runnable(part, a, b) {
            return false;
        }
        k = k + 1;
    }
    true
}

/// Whether documentation holds at least one runnable example.
pub fn has_runnable_example(doc: &str) -> (r: bool)
    ensures
        r == doc_has_runnable(doc@),
{
    let text = chars_of(doc);
    let lines = split_chars(&text, '\n');
    let mut in_block = false;
    let mut i: usize = 0;
    while i < lines.len()
        invariant
            i <= lines@.len(),
            lines@.len() == split_on(doc@, '\n').len(),
            forall|j: int| 0 <= j < lines@.len() ==> #[trigger] lines@[j]@ == split_on(doc@, '\n')[j],
            doc_has_runnable(doc@) == runnable_block_from(split_on(doc@, '\n'), i as int, in_block),
        decreases lines@.len() - i,
    {
        let raw = &lines[i];
        let len = if raw.len() > 0 && raw[raw.len() - 1] == '\r' {
            raw.len() - 1
        } else {
            raw.len()
        };
        proof {
            let ls = split_on(doc@, '\n');
            assert(raw@ == ls[i as int]);
            assert(line_text(ls[i as int]) =~= raw@.subrange(0, len as int));
        }
        if len >= 3 && range_is(raw, 0, 3, "```") {
            proof {
                reveal_strlit("```");
                assert(fence() =~= "```"@);
                assert(raw@.subrange(0, len as int).subrange(0, 3) =~= raw@.subrange(0, 3));
            }
            let mut info: Vec<char> = Vec::new();
            let mut j: usize = 3;
            while j < len
                invariant
                    3 <= j <= len <= raw@.len(),
                    info@ == raw@.subrange(3, j as int),
                decreases len - j,
            {
                info.push(raw[j]);
                j = j + 1;
                assert(info@ =~= raw@.subrange(3, j as int));
            }
            proof {
                assert(info@ =~= raw@.subrange(0, len as int).subrange(3, len as int));
            }
            if !in_block {
                if is_runnable_info(&info) {
                    return true;
                }
                in_block = true;
            } else {
                let (a, b) = trim_bounds(&info, 0, info.len());
                assert(info@.subrange(0, info@.len() as int) =~= info@);
                in_block = a != b;
            }
        } else {
            proof {
                reveal_strlit("```");
                assert(fence() =~= "```"@);
                if len >= 3 {
                    assert(raw@.subrange(0, len as int).subrange(0, 3) =~= raw@.subrange(0, 3));
                }
            }
        }
        i = i + 1;
    }
    false
}

/// Whether optional documentation holds at least one runnable example.
pub fn docs_runnable(docs: &Option<String>) -> (r: bool)
    ensures
        r == docs_have_runnable(*docs),
{
    match docs {
        Some(d) => has_runnable_example(d.as_str()),
        None => false,
    }
}

} // verus!
