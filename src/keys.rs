//! Keys, file names and the order in which keys are listed.
use vstd::prelude::*;

verus! {

/// Relies on str::chars: the characters of a text, in order.
#[verifier::external_body]
pub(crate) fn chars_of(s: &str) -> (r: Vec<char>)
    ensures
        r@ == s@,
{
    s.chars().collect()
}

/// Relies on String's `FromIterator<&char>`: the text made of the characters, in order.
#[verifier::external_body]
pub(crate) fn text_of(v: &Vec<char>) -> (r: String)
    ensures
        r@ == v@,
{
    v.iter().collect()
}

/// Characters that may not appear in a record's file name.
pub open spec fn is_unsafe_char(c: char) -> bool {
    c == '/' || c == '\\' || c == ':' || c == '*' || c == '?' || c == '"' || c == '<' || c == '>'
        || c == '|'
}

pub open spec fn safe_char(c: char) -> char {
    if is_unsafe_char(c) {
        '_'
    } else {
        c
    }
}

/// The sanitized form of a key: every unsafe character becomes `_`.
/// Distinct keys that differ only in unsafe characters share one sanitized form.
pub open spec fn sanitized(k: Seq<char>) -> Seq<char> {
    Seq::new(k.len(), |j: int| safe_char(k[j]))
}

pub open spec fn json_ext() -> Seq<char> {
    seq!['.', 'j', 's', 'o', 'n']
}

/// The file name under which the record of key `k` is kept.
pub open spec fn file_name_of(k: Seq<char>) -> Seq<char> {
    sanitized(k) + json_ext()
}

/// `dir` joined with `name`, with one separator between them.
pub open spec fn join_path(dir: Seq<char>, name: Seq<char>) -> Seq<char> {
    if dir.len() == 0 || dir.last() == '/' {
        dir + name
    } else {
        dir + seq!['/'] + name
    }
}

/// The key part of a file name: the name without its `.json` extension, when it has
/// one and something stands before it.
pub open spec fn key_of_file_name_spec(name: Seq<char>) -> Option<Seq<char>> {
    if name.len() > 5 && name.subrange(name.len() - 5, name.len() as int) == json_ext() {
        Some(name.subrange(0, name.len() - 5))
    } else {
        None
    }
}

/// Lexicographic order on keys, character by character by code point.
pub open spec fn key_less(a: Seq<char>, b: Seq<char>) -> bool
    decreases a.len(),
{
    if a.len() == 0 {
        b.len() > 0
    } else if b.len() == 0 {
        false
    } else if a[0] != b[0] {
        (a[0] as int) < (b[0] as int)
    } else {
        key_less(a.drop_first(), b.drop_first())
    }
}

pub proof fn lemma_key_less_irreflexive(a: Seq<char>)
    ensures
        !key_less(a, a),
    decreases a.len(),
{
    if a.len() > 0 {
        lemma_key_less_irreflexive(a.drop_first());
    }
}

pub proof fn lemma_key_less_transitive(a: Seq<char>, b: Seq<char>, c: Seq<char>)
    requires
        key_less(a, b),
        key_less(b, c),
    ensures
        key_less(a, c),
    decreases a.len(),
{
    if a.len() > 0 && b.len() > 0 && c.len() > 0 && a[0] == b[0] && b[0] == c[0] {
        lemma_key_less_transitive(a.drop_first(), b.drop_first(), c.drop_first());
    }
}

pub proof fn lemma_key_less_total(a: Seq<char>, b: Seq<char>)
    ensures
        a == b || key_less(a, b) || key_less(b, a),
    decreases a.len(),
{
    if a.len() > 0 && b.len() > 0 {
        if a[0] == b[0] {
            lemma_key_less_total(a.drop_first(), b.drop_first());
            if a.drop_first() == b.drop_first() {
                assert(a =~= seq![a[0]] + a.drop_first());
                assert(b =~= seq![b[0]] + b.drop_first());
            }
        } else {
            assert((a[0] as int) != (b[0] as int));
        }
    } else if a.len() == 0 && b.len() == 0 {
        assert(a =~= b);
    }
}

/// Compares two keys in the listing order.
pub fn key_lt(a: &str, b: &str) -> (r: bool)
    ensures
        r == key_less(a@, b@),
{
    let x = chars_of(a);
    let y = chars_of(b);
    let la = x.len();
    let lb = y.len();
    let mut i: usize = 0;
    proof {
        assert(a@.subrange(0, la as int) =~= a@);
        assert(b@.subrange(0, lb as int) =~= b@);
    }
    while i < la && i < lb
        invariant
            x@ == a@,
            y@ == b@,
            la == a@.len(),
            lb == b@.len(),
            i <= la,
            i <= lb,
            key_less(a@, b@) == key_less(a@.subrange(i as int, la as int), b@.subrange(i as int, lb as int)),
        decreases la - i,
    {
        let ca = x[i];
        let cb = y[i];
        let ghost sa = a@.subrange(i as int, la as int);
        let ghost sb = b@.subrange(i as int, lb as int);
        if ca != cb {
            assert(sa[0] == ca && sb[0] == cb);
            assert(key_less(sa, sb) == ((ca as int) < (cb as int)));
            return ca < cb;
        }
        proof {
            assert(sa.drop_first() =~= a@.subrange(i + 1, la as int));
            assert(sb.drop_first() =~= b@.subrange(i + 1, lb as int));
        }
        i = i + 1;
    }
    i < lb
}

/// The sanitized form of `key`.
pub fn sanitize_key(key: &str) -> (r: String)
    ensures
        r@ == sanitized(key@),
{
    let k = chars_of(key);
    let mut out: Vec<char> = Vec::new();
    let mut i: usize = 0;
    while i < k.len()
        invariant
            k@ == key@,
            i <= k@.len(),
            out@ =~= Seq::new(i as nat, |j: int| safe_char(key@[j])),
        decreases k@.len() - i,
    {
        let c = k[i];
        if c == '/' || c == '\\' || c == ':' || c == '*' || c == '?' || c == '"' || c == '<'
            || c == '>' || c == '|' {
            out.push('_');
        } else {
            out.push(c);
        }
        i = i + 1;
    }
    text_of(&out)
}

/// The file name under which the record of `key` is kept.
pub fn file_name_for_key(key: &str) -> (r: String)
    ensures
        r@ == file_name_of(key@),
{
    let mut r = sanitize_key(key);
    r.append(".json");
    proof { reveal_strlit(".json"); assert(".json"@ =~= json_ext()); }
    r
}

/// The key part of a file name in the data directory, if the name is one of a record.
pub fn key_of_file_name(name: &str) -> (r: Option<String>)
    ensures
        r matches Some(k) ==> key_of_file_name_spec(name@) == Some(k@),
        r is None ==> key_of_file_name_spec(name@) is None,
{
    let n = name.unicode_len();
    if n <= 5 {
        return None;
    }
    let tail = name.substring_char(n - 5, n);
    let ext = ".json";
    proof { reveal_strlit(".json"); assert(ext@ =~= json_ext()); }
    let mut same = true;
    let mut i: usize = 0;
    assert(tail@.subrange(0, 0) =~= ext@.subrange(0, 0));
    while i < 5
        invariant
            tail@.len() == 5,
            ext@ == json_ext(),
            i <= 5,
            same == (tail@.subrange(0, i as int) == ext@.subrange(0, i as int)),
        decreases 5 - i,
    {
        proof { reveal_strlit(".json"); }
        let a = tail.get_char(i);
        let b = ext.get_char(i);
        proof {
            assert(tail@.subrange(0, i + 1) =~= tail@.subrange(0, i as int).push(a));
            assert(ext@.subrange(0, i + 1) =~= ext@.subrange(0, i as int).push(b));
            if tail@.subrange(0, i + 1) == ext@.subrange(0, i + 1) {
                assert(tail@.subrange(0, i + 1)[i as int] == ext@.subrange(0, i + 1)[i as int]);
                assert(tail@.subrange(0, i as int) =~= tail@.subrange(0, i + 1).drop_last());
                assert(ext@.subrange(0, i as int) =~= ext@.subrange(0, i + 1).drop_last());
            }
        }
        same = same && a == b;
        i = i + 1;
    }
    proof {
        assert(tail@.subrange(0, 5) =~= tail@);
        assert(ext@.subrange(0, 5) =~= ext@);
    }
    if same {
        Some(name.substring_char(0, n - 5).to_string())
    } else {
        None
    }
}

} // verus!
