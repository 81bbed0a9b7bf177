//! Google Takeout sidecars as a source of dates: where the JSON file that Takeout
//! wrote beside a picture may lie. Takeout names it after the picture, but cuts long
//! names short, moves the copy number of a numbered copy behind the extension, and
//! keeps one sidecar for an edited copy and its original.
use vstd::prelude::*;
use vstd::utf8::{encode_scalar, encode_utf8};
use crate::paths::{file_name, file_name_of, join_path, joined_path, parent, parent_of};
use crate::text::{
    all_digits, chars_of, ends_with, ends_with_chars, extend, extend_str, first_index, find_from, last_index,
    lemma_last_index, only_digits, rfind, slice_chars, string_of,
};

verus! {

/// The word Takeout puts between a picture's name and `.json` in newer exports.
pub const SUPPLEMENT: &'static str = "supplemental-metadata";
/// The longest name Takeout writes, in bytes.
pub const NAME_LIMIT: usize = 51;
/// What the languages Takeout speaks add to the stem of an edited copy.
pub const EDITED: [&'static str; 6] = ["-edited", "-bearbeitet", "-modifié", "-editado", "-bewerkt", "-redigerad"];

/// How many bytes the UTF-8 encoding of `s` takes.
pub open spec fn utf8_len(s: Seq<char>) -> nat {
    encode_utf8(s).len()
}

proof fn lemma_encode_push(s: Seq<char>, c: char)
    ensures
        encode_utf8(s.push(c)) == encode_utf8(s) + encode_scalar(c as u32),
    decreases s.len(),
{
    if s.len() == 0 {
        assert(s.push(c).drop_first() =~= Seq::<char>::empty());
        assert(encode_utf8(Seq::<char>::empty()) =~= Seq::<u8>::empty());
        assert(encode_utf8(s.push(c)) =~= encode_scalar(c as u32));
    } else {
        lemma_encode_push(s.drop_first(), c);
        assert(s.push(c).drop_first() =~= s.drop_first().push(c));
        assert(encode_utf8(s.push(c)) =~= encode_scalar(s[0] as u32) + encode_utf8(s.drop_first().push(c)));
    }
}

/// How many bytes the UTF-8 encoding of `c` takes.
pub open spec fn width(c: char) -> nat {
    if (c as u32) <= 0x7F {
        1
    } else if (c as u32) <= 0x7FF {
        2
    } else if (c as u32) <= 0xFFFF {
        3
    } else {
        4
    }
}

proof fn lemma_width(c: char)
    ensures
        encode_scalar(c as u32).len() == width(c),
{
}

proof fn lemma_utf8_len_prefix(s: Seq<char>, i: int)
    requires
        0 <= i <= s.len(),
    ensures
        utf8_len(s.take(i)) <= utf8_len(s),
    decreases s.len(),
{
    if i < s.len() {
        let t = s.drop_last();
        lemma_utf8_len_prefix(t, i);
        assert(t.take(i) =~= s.take(i));
        assert(t.push(s.last()) =~= s);
        lemma_encode_push(t, s.last());
    } else {
        assert(s.take(i) =~= s);
    }
}

/// Whether the UTF-8 encoding of `v` takes at most `limit` bytes.
fn bytes_at_most(v: &Vec<char>, limit: usize) -> (b: bool)
    requires
        limit <= 1024,
    ensures
        b == (utf8_len(v@) <= limit),
{
    let mut n: usize = 0;
    let mut i: usize = 0;
    assert(v@.take(0) =~= Seq::<char>::empty());
    assert(encode_utf8(Seq::<char>::empty()) =~= Seq::<u8>::empty());
    while i < v.len()
        invariant
            i <= v@.len(),
            limit <= 1024,
            n == utf8_len(v@.take(i as int)),
            n <= limit,
        decreases v.len() - i,
    {
        let c = v[i];
        let w: usize = if (c as u32) <= 0x7F {
            1
        } else if (c as u32) <= 0x7FF {
            2
        } else if (c as u32) <= 0xFFFF {
            3
        } else {
            4
        };
        proof {
            assert(v@.take(i + 1) =~= v@.take(i as int).push(c));
            lemma_encode_push(v@.take(i as int), c);
            lemma_width(c);
        }
        if n + w > limit {
            proof { lemma_utf8_len_prefix(v@, i + 1); }
            return false;
        }
        n = n + w;
        i = i + 1;
    }
    assert(v@.take(i as int) =~= v@);
    true
}

/// `h` with characters dropped from its end until it takes at most 46 bytes.
pub open spec fn shrink(h: Seq<char>) -> Seq<char>
    decreases h.len(),
{
    if h.len() > 0 && utf8_len(h) > NAME_LIMIT - 5 {
        shrink(h.drop_last())
    } else {
        h
    }
}

/// A sidecar name as Takeout cuts it: a name that takes more than `NAME_LIMIT` bytes
/// loses characters before its `.json` until it fits.
pub open spec fn spec_trimmed(name: Seq<char>) -> Seq<char> {
    if utf8_len(name) <= NAME_LIMIT {
        name
    } else {
        shrink(name.take(name.len() - 5)) + ".json"@
    }
}

/// The sidecar name `name`, cut as Takeout cuts it.
pub fn trimmed(name: &Vec<char>) -> (r: Vec<char>)
    requires
        ends_with(name@, ".json"@),
    ensures
        r@ == spec_trimmed(name@),
{
    proof { reveal_strlit(".json"); }
    if bytes_at_most(name, NAME_LIMIT) {
        return name.clone();
    }
    let mut head = slice_chars(name, 0, name.len() - 5);
    assert(head@ =~= name@.take(name@.len() - 5));
    let ghost start = head@;
    while head.len() > 0 && !bytes_at_most(&head, NAME_LIMIT - 5)
        invariant
            shrink(start) == shrink(head@),
        decreases head.len(),
    {
        head.pop();
    }
    extend_str(&mut head, ".json");
    head
}

/// The name of an edited copy without the mark its language adds: the stem before its
/// last `.` loses the first mark of `EDITED` it ends with.
pub open spec fn spec_without_edited(name: Seq<char>) -> Option<Seq<char>> {
    match last_index(name, '.') {
        None => None,
        Some(d) => {
            let stem = name.take(d);
            let ext = name.skip(d + 1);
            match first_mark(stem, 0) {
                None => None,
                Some(m) => Some(stem.take(stem.len() - EDITED@[m]@.len()) + seq!['.'] + ext),
            }
        },
    }
}

/// The first of the marks from `from` on that `stem` ends with.
pub open spec fn first_mark(stem: Seq<char>, from: int) -> Option<int>
    decreases 6 - from,
{
    if from < 0 || from >= 6 {
        None
    } else if ends_with(stem, EDITED@[from]@) {
        Some(from)
    } else {
        first_mark(stem, from + 1)
    }
}

/// The name of the original of an edited copy, if `name` is one.
pub fn without_edited(name: &Vec<char>) -> (r: Option<Vec<char>>)
    ensures
        match r {
            Some(v) => spec_without_edited(name@) == Some(v@),
            None => spec_without_edited(name@) is None,
        },
{
    let d = match rfind(name, '.') {
        Some(d) => d,
        None => return None,
    };
    proof { lemma_last_index(name@, '.'); }
    let n = name.len();
    assert(d < n);
    let stem = slice_chars(name, 0, d);
    let ext = slice_chars(name, d + 1, n);
    assert(stem@ =~= name@.take(d as int));
    assert(ext@ =~= name@.skip(d + 1));
    let mut m: usize = 0;
    while m < 6
        invariant
            m <= 6,
            first_mark(stem@, 0) == first_mark(stem@, m as int),
            last_index(name@, '.') == Some(d as int),
            d < name@.len(),
            stem@ == name@.take(d as int),
            ext@ == name@.skip(d + 1),
        decreases 6 - m,
    {
        let mark = chars_of(EDITED[m]);
        assert(mark@ == EDITED@[m as int]@);
        if ends_with_chars(&stem, &mark) {
            assert(first_mark(stem@, m as int) == Some(m as int));
            let mut plain = slice_chars(&stem, 0, stem.len() - mark.len());
            assert(plain@ =~= stem@.take(stem@.len() - EDITED@[m as int]@.len()));
            plain.push('.');
            extend(&mut plain, &ext);
            assert(plain@ =~= stem@.take(stem@.len() - EDITED@[m as int]@.len()) + seq!['.'] + ext@);
            assert(last_index(name@, '.') == Some(d as int));
            assert(first_mark(stem@, 0) == Some(m as int));
            assert(spec_without_edited(name@) == Some(plain@));
            return Some(plain);
        }
        m = m + 1;
    }
    assert(first_mark(stem@, 6) is None);
    None
}

/// A numbered copy's name with the number taken out, and the number: `IMG(1).JPG`
/// gives `IMG.JPG` and `1`. The number is what stands between the first `(` and the
/// first `)` after it, one or more ASCII digits, and a `.` must follow the `)`.
pub open spec fn spec_numbered(name: Seq<char>) -> Option<(Seq<char>, Seq<char>)> {
    match first_index(name, '(') {
        None => None,
        Some(o) => {
            let head = name.take(o);
            let rest = name.skip(o + 1);
            match first_index(rest, ')') {
                None => None,
                Some(c) => {
                    let copy = rest.take(c);
                    let tail = rest.skip(c + 1);
                    if copy.len() == 0 || !all_digits(copy) || tail.len() == 0 || tail[0] != '.' {
                        None
                    } else {
                        Some((head + seq!['.'] + tail.skip(1), copy))
                    }
                },
            }
        },
    }
}

/// The name without its copy number, and the number, if `name` is a numbered copy.
pub fn numbered(name: &Vec<char>) -> (r: Option<(Vec<char>, Vec<char>)>)
    ensures
        match r {
            Some((stem, copy)) => spec_numbered(name@) == Some((stem@, copy@)),
            None => spec_numbered(name@) is None,
        },
{
    assert(name@.skip(0) =~= name@);
    let o = match find_from(name, 0, '(') {
        Some(o) => o,
        None => return None,
    };
    let head = slice_chars(name, 0, o);
    let rest = slice_chars(name, o + 1, name.len());
    assert(head@ =~= name@.take(o as int));
    assert(rest@ =~= name@.skip(o + 1));
    assert(rest@.skip(0) =~= rest@);
    let c = match find_from(&rest, 0, ')') {
        Some(c) => c,
        None => return None,
    };
    let copy = slice_chars(&rest, 0, c);
    let tail = slice_chars(&rest, c + 1, rest.len());
    assert(copy@ =~= rest@.take(c as int));
    assert(tail@ =~= rest@.skip(c + 1));
    if copy.len() == 0 || !only_digits(&copy) || tail.len() == 0 || tail[0] != '.' {
        return None;
    }
    let ext = slice_chars(&tail, 1, tail.len());
    assert(ext@ =~= tail@.skip(1));
    let mut stem = head;
    stem.push('.');
    extend(&mut stem, &ext);
    Some((stem, copy))
}

/// The sidecar names tried for a picture named `name`: for the name itself and then
/// for the name of its original if it is an edited copy, the name with the copy
/// number moved behind the extension (for a numbered copy), the name with `.json`,
/// and the name with the supplement and `.json`, cut as Takeout cuts it.
pub open spec fn spec_candidates(name: Seq<char>) -> Seq<Seq<char>> {
    let names = match spec_without_edited(name) {
        Some(plain) => seq![name, plain],
        None => seq![name],
    };
    names_candidates(names)
}

/// The sidecar names tried for each of `names`, in order.
pub open spec fn names_candidates(names: Seq<Seq<char>>) -> Seq<Seq<char>>
    decreases names.len(),
{
    if names.len() == 0 {
        Seq::empty()
    } else {
        names_candidates(names.drop_last()) + name_candidates(names.last())
    }
}

/// The sidecar names tried for the name `n`.
pub open spec fn name_candidates(n: Seq<char>) -> Seq<Seq<char>> {
    let numbered_one = match spec_numbered(n) {
        Some((stem, copy)) => seq![stem + seq!['('] + copy + ").json"@],
        None => Seq::empty(),
    };
    numbered_one + seq![n + ".json"@, spec_trimmed(n + seq!['.'] + SUPPLEMENT@ + ".json"@)]
}

fn push_name_candidates(out: &mut Vec<Vec<char>>, n: &Vec<char>)
    ensures
        final(out)@.map_values(|v: Vec<char>| v@) == old(out)@.map_values(|v: Vec<char>| v@) + name_candidates(n@),
{
    proof {
        reveal_strlit(".json");
        reveal_strlit(").json");
    }
    let ghost start = out@.map_values(|v: Vec<char>| v@);
    let ghost numbered_one = match spec_numbered(n@) {
        Some((stem, copy)) => seq![stem + seq!['('] + copy + ").json"@],
        None => Seq::<Seq<char>>::empty(),
    };
    match numbered(n) {
        Some((stem, copy)) => {
            let ghost sv = stem@;
            let ghost kv = copy@;
            let mut c = stem;
            c.push('(');
            extend(&mut c, &copy);
            extend_str(&mut c, ").json");
            let ghost cv = c@;
            out.push(c);
            assert(out@.map_values(|v: Vec<char>| v@) =~= start.push(cv));
            assert(cv =~= sv + seq!['('] + kv + ").json"@);
            assert(numbered_one =~= seq![cv]);
        },
        None => {
            assert(numbered_one =~= Seq::<Seq<char>>::empty());
        },
    }
    assert(out@.map_values(|v: Vec<char>| v@) =~= start + numbered_one);
    let ghost mid = out@.map_values(|v: Vec<char>| v@);
    let mut plain = n.clone();
    extend_str(&mut plain, ".json");
    let ghost pv = plain@;
    out.push(plain);
    assert(out@.map_values(|v: Vec<char>| v@) =~= mid.push(pv));
    let ghost mid2 = out@.map_values(|v: Vec<char>| v@);
    let mut long = n.clone();
    long.push('.');
    extend_str(&mut long, SUPPLEMENT);
    extend_str(&mut long, ".json");
    assert(ends_with(long@, ".json"@)) by {
        assert(long@.skip(long@.len() - 5) =~= ".json"@);
    }
    assert(long@ =~= n@ + seq!['.'] + SUPPLEMENT@ + ".json"@);
    let t = trimmed(&long);
    let ghost tv = t@;
    out.push(t);
    assert(out@.map_values(|v: Vec<char>| v@) =~= mid2.push(tv));
    assert(out@.map_values(|v: Vec<char>| v@) =~= start + name_candidates(n@));
}

/// The sidecar names tried for a picture named `name`, in order.
pub fn candidates(name: &Vec<char>) -> (r: Vec<Vec<char>>)
    ensures
        r@.map_values(|v: Vec<char>| v@) == spec_candidates(name@),
{
    let mut out: Vec<Vec<char>> = Vec::new();
    push_name_candidates(&mut out, name);
    let ghost first = name_candidates(name@);
    assert(names_candidates(seq![name@]) =~= first) by {
        assert(seq![name@].drop_last() =~= Seq::<Seq<char>>::empty());
        assert(names_candidates(Seq::<Seq<char>>::empty()) =~= Seq::<Seq<char>>::empty());
    }
    match without_edited(name) {
        Some(plain) => {
            push_name_candidates(&mut out, &plain);
            assert(seq![name@, plain@].drop_last() =~= seq![name@]);
        },
        None => {},
    }
    out
}

/// The places the Takeout sidecar of the file at `p` may lie, in the order they are
/// tried: each candidate name beside the file. A path without a folder or a name has
/// none.
pub open spec fn spec_sidecar(p: Seq<char>) -> Option<Seq<Seq<char>>> {
    match (parent_of(p), file_name_of(p)) {
        (Some(folder), Some(name)) => Some(
            spec_candidates(name).map_values(|c: Seq<char>| joined_path(folder, c)),
        ),
        _ => None,
    }
}

/// The places the Takeout sidecar of the file at `path` may lie, in the order they
/// are tried; the first that is a file is the sidecar.
pub fn sidecar(path: &str) -> (r: Option<Vec<String>>)
    ensures
        match r {
            Some(v) => spec_sidecar(path@) == Some(v@.map_values(|s: String| s@)),
            None => spec_sidecar(path@) is None,
        },
{
    let folder = match parent(path) {
        Some(f) => f,
        None => return None,
    };
    let name = match file_name(path) {
        Some(n) => n,
        None => return None,
    };
    let names = candidates(&chars_of(name.as_str()));
    let ghost want = spec_candidates(name@).map_values(|c: Seq<char>| joined_path(folder@, c));
    let mut out: Vec<String> = Vec::new();
    let mut k: usize = 0;
    while k < names.len()
        invariant
            k <= names@.len(),
            names@.map_values(|v: Vec<char>| v@) == spec_candidates(name@),
            want == spec_candidates(name@).map_values(|c: Seq<char>| joined_path(folder@, c)),
            out@.map_values(|s: String| s@) == want.take(k as int),
        decreases names.len() - k,
    {
        let c = string_of(&names[k]);
        let joined = join_path(folder.as_str(), c.as_str());
        let ghost before = out@.map_values(|s: String| s@);
        out.push(joined);
        assert(names@.map_values(|v: Vec<char>| v@)[k as int] == names@[k as int]@);
        assert(out@.map_values(|s: String| s@) =~= before.push(want[k as int]));
        assert(want.take(k + 1) =~= want.take(k as int).push(want[k as int]));
        k = k + 1;
    }
    assert(want.take(k as int) =~= want);
    Some(out)
}


proof fn lemma_utf8_concat(a: Seq<char>, b: Seq<char>)
    ensures
        utf8_len(a + b) == utf8_len(a) + utf8_len(b),
    decreases b.len(),
{
    if b.len() == 0 {
        assert(a + b =~= a);
        assert(encode_utf8(b) =~= Seq::<u8>::empty());
    } else {
        lemma_utf8_concat(a, b.drop_last());
        assert(a + b =~= (a + b.drop_last()).push(b.last()));
        assert(b =~= b.drop_last().push(b.last()));
        lemma_encode_push(a + b.drop_last(), b.last());
        lemma_encode_push(b.drop_last(), b.last());
    }
}

proof fn lemma_shrink_fits(h: Seq<char>)
    ensures
        utf8_len(shrink(h)) <= NAME_LIMIT - 5,
    decreases h.len(),
{
    if h.len() > 0 && utf8_len(h) > NAME_LIMIT - 5 {
        lemma_shrink_fits(h.drop_last());
    } else if h.len() == 0 {
        assert(encode_utf8(h) =~= Seq::<u8>::empty());
    }
}

/// A sidecar name as Takeout cuts it never takes more than `NAME_LIMIT` bytes.
pub proof fn law_a_cut_name_fits(name: Seq<char>)
    ensures
        utf8_len(spec_trimmed(name)) <= NAME_LIMIT,
{
    if utf8_len(name) > NAME_LIMIT {
        let h = shrink(name.take(name.len() - 5));
        lemma_shrink_fits(name.take(name.len() - 5));
        lemma_utf8_concat(h, ".json"@);
        reveal_strlit(".json");
        assert(utf8_len(".json"@) == 5) by {
            reveal(vstd::utf8::encode_utf8);
            assert(".json"@ =~= seq!['.', 'j', 's', 'o', 'n']);
            lemma_encode_push(seq!['.', 'j', 's', 'o'], 'n');
            lemma_encode_push(seq!['.', 'j', 's'], 'o');
            lemma_encode_push(seq!['.', 'j'], 's');
            lemma_encode_push(seq!['.'], 'j');
            lemma_encode_push(Seq::<char>::empty(), '.');
            assert(seq!['.'] =~= Seq::<char>::empty().push('.'));
            assert(seq!['.', 'j'] =~= seq!['.'].push('j'));
            assert(seq!['.', 'j', 's'] =~= seq!['.', 'j'].push('s'));
            assert(seq!['.', 'j', 's', 'o'] =~= seq!['.', 'j', 's'].push('o'));
            assert(seq!['.', 'j', 's', 'o', 'n'] =~= seq!['.', 'j', 's', 'o'].push('n'));
            assert(encode_utf8(Seq::<char>::empty()) =~= Seq::<u8>::empty());
        }
    }
}

} // verus!
