//! The document tree that the parser reads, its canonical encoding and
//! content digest.

use vstd::prelude::*;

verus! {

/// Deepest nesting of a document that is read.
pub const MAX_DEPTH: usize = 256;

/// A JSON / YAML document node.
#[derive(Debug)]
pub enum Json {
    Null,
    Bool(bool),
    /// A number, in its textual form.
    Number(String),
    Str(String),
    Array(Vec<Json>),
    /// Members in the order the reader gives them. The JSON and YAML
    /// readers used here sort an object's members by key.
    Object(Vec<(String, Json)>),
}

#[verifier::external_type_specification]
#[verifier::external_body]
pub struct ExValue(serde_json::Value);

/// Copy of a parsed value as a tree, member order and number text kept.
/// The readers' depth limits bound the recursion.
#[verifier::external_body]
fn tree_of_value(v: &serde_json::Value) -> (r: Json) {
    match v {
        serde_json::Value::Null => Json::Null,
        serde_json::Value::Bool(b) => Json::Bool(*b),
        serde_json::Value::Number(n) => Json::Number(n.to_string()),
        serde_json::Value::String(s) => Json::Str(s.clone()),
        serde_json::Value::Array(a) => Json::Array(a.iter().map(tree_of_value).collect()),
        serde_json::Value::Object(m) => Json::Object(m.iter().map(|(k, x)| (k.clone(), tree_of_value(x))).collect()),
    }
}

/// The tree that `serde_json` reads from a JSON text, `None` where the text
/// is not well-formed JSON.
pub uninterp spec fn json_text_tree(s: Seq<char>) -> Option<Json>;

/// The tree that `serde_yaml` reads from a YAML text, `None` where the text
/// is not a well-formed YAML document of JSON-compatible values.
pub uninterp spec fn yaml_text_tree(s: Seq<char>) -> Option<Json>;

/// Relies on `serde_json::from_str` into a `serde_json::Value`: the result
/// depends on the text alone; a parse error comes back as its message.
#[verifier::external_body]
fn json_tree(text: &str) -> (r: Result<Json, String>)
    ensures
        match json_text_tree(text@) {
            Some(j) => r == Ok::<Json, String>(j),
            None => r is Err,
        },
{
    match serde_json::from_str::<serde_json::Value>(text) {
        Ok(v) => Ok(tree_of_value(&v)),
        Err(e) => Err(e.to_string()),
    }
}

/// Relies on `serde_yaml::from_str` into a `serde_json::Value`: the result
/// depends on the text alone; a parse error comes back as its message.
#[verifier::external_body]
fn yaml_tree(text: &str) -> (r: Result<Json, String>)
    ensures
        match yaml_text_tree(text@) {
            Some(j) => r == Ok::<Json, String>(j),
            None => r is Err,
        },
{
    match serde_yaml::from_str::<serde_json::Value>(text) {
        Ok(v) => Ok(tree_of_value(&v)),
        Err(e) => Err(e.to_string()),
    }
}

/// Why a text could not be read as a document.
#[derive(Debug)]
pub enum TextError {
    /// Not well-formed, with the reader's explanation.
    Malformed(String),
}

/// Reads JSON text into a tree.
pub fn read_json(text: &str) -> (r: Result<Json, TextError>)
    ensures
        match json_text_tree(text@) {
            Some(j) => r matches Ok(t) && t == j,
            None => r matches Err(TextError::Malformed(_)),
        },
{
    match json_tree(text) {
        Ok(j) => Ok(j),
        Err(e) => Err(TextError::Malformed(e)),
    }
}

/// Reads YAML text into a tree.
pub fn read_yaml(text: &str) -> (r: Result<Json, TextError>)
    ensures
        match yaml_text_tree(text@) {
            Some(j) => r matches Ok(t) && t == j,
            None => r matches Err(TextError::Malformed(_)),
        },
{
    match yaml_tree(text) {
        Ok(j) => Ok(j),
        Err(e) => Err(TextError::Malformed(e)),
    }
}

/// The value of the first member named `key`.
pub open spec fn lookup(m: Seq<(String, Json)>, key: Seq<char>) -> Option<Json>
    decreases m.len(),
{
    if m.len() == 0 {
        None
    } else if m[0].0@ == key {
        Some(m[0].1)
    } else {
        lookup(m.subrange(1, m.len() as int), key)
    }
}

/// The member `key` of an object; `None` for other nodes.
pub open spec fn field(j: Json, key: Seq<char>) -> Option<Json> {
    match j {
        Json::Object(m) => lookup(m@, key),
        _ => None,
    }
}

/// The text of a string node.
pub open spec fn str_of(j: Option<Json>) -> Option<Seq<char>> {
    match j {
        Some(Json::Str(s)) => Some(s@),
        _ => None,
    }
}

/// The value of a boolean node.
pub open spec fn bool_of(j: Option<Json>) -> Option<bool> {
    match j {
        Some(Json::Bool(b)) => Some(b),
        _ => None,
    }
}

pub proof fn lemma_lookup_shift(m: Seq<(String, Json)>, key: Seq<char>, i: int)
    requires
        0 <= i < m.len(),
        m[i].0@ != key,
    ensures
        lookup(m.subrange(i, m.len() as int), key) == lookup(m.subrange(i + 1, m.len() as int), key),
{
    assert(m.subrange(i, m.len() as int).subrange(1, m.len() - i) =~= m.subrange(i + 1, m.len() as int));
}

/// The first member named `key` stands at `i`.
pub proof fn lemma_lookup_first(m: Seq<(String, Json)>, key: Seq<char>, i: int)
    requires
        0 <= i < m.len(),
        m[i].0@ == key,
        forall|k: int| 0 <= k < i ==> (#[trigger] m[k]).0@ != key,
    ensures
        lookup(m, key) == Some(m[i].1),
    decreases i,
{
    if i > 0 {
        let rest = m.subrange(1, m.len() as int);
        assert(m[0].0@ != key);
        assert forall|k: int| 0 <= k < i - 1 implies (#[trigger] rest[k]).0@ != key by {
            assert(rest[k] == m[k + 1]);
        }
        assert(rest[i - 1] == m[i]);
        lemma_lookup_first(rest, key, i - 1);
    }
}

impl Json {
    /// The member `key` of an object, if any.
    pub fn get(&self, key: &str) -> (r: Option<&Json>)
        ensures
            match r {
                Some(x) => field(*self, key@) == Some(*x),
                None => field(*self, key@).is_none(),
            },
    {
        match self {
            Json::Object(m) => {
                let mut i: usize = 0;
                assert(m@.subrange(0, m@.len() as int) =~= m@);
                assert(field(*self, key@) == lookup(m@, key@));
                while i < m.len()
                    invariant
                        i <= m@.len(),
                        field(*self, key@) == lookup(m@, key@),
                        lookup(m@, key@) == lookup(m@.subrange(i as int, m@.len() as int), key@),
                    decreases m.len() - i,
                {
                    if crate::text::str_equal(m[i].0.as_str(), key) {
                        assert(m@.subrange(i as int, m@.len() as int)[0] == m@[i as int]);
                        assert(lookup(m@.subrange(i as int, m@.len() as int), key@) == Some(m@[i as int].1));
                        return Some(&m[i].1);
                    }
                    proof {
                        lemma_lookup_shift(m@, key@, i as int);
                    }
                    i += 1;
                }
                None
            },
            _ => None,
        }
    }

    /// The text of a string member `key`, if any.
    pub fn get_str(&self, key: &str) -> (r: Option<String>)
        ensures
            crate::text::opt_view(r) == str_of(field(*self, key@)),
    {
        match self.get(key) {
            Some(Json::Str(s)) => Some(s.clone()),
            _ => None,
        }
    }

    /// The value of a boolean member `key`, if any.
    pub fn get_bool(&self, key: &str) -> (r: Option<bool>)
        ensures
            r == bool_of(field(*self, key@)),
    {
        match self.get(key) {
            Some(Json::Bool(b)) => Some(*b),
            _ => None,
        }
    }
}

/// `s` with '"' and '\' each preceded by '\'.
pub open spec fn escaped(s: Seq<char>) -> Seq<char>
    decreases s.len(),
{
    if s.len() == 0 {
        Seq::empty()
    } else {
        escaped(s.drop_last()) + if s.last() == '"' || s.last() == '\\' {
            seq!['\\', s.last()]
        } else {
            seq![s.last()]
        }
    }
}

/// Canonical encoding of a tree, down to `fuel` levels: each string quoted
/// and escaped, numbers tagged, members in the order the tree holds them.
pub open spec fn canon(j: Json, fuel: nat) -> Seq<char>
    decreases fuel, 0nat, 0nat,
{
    if fuel == 0 {
        Seq::empty()
    } else {
        match j {
            Json::Null => "null"@,
            Json::Bool(b) => if b { "true"@ } else { "false"@ },
            Json::Number(n) => "#"@ + n@ + ";"@,
            Json::Str(s) => "\""@ + escaped(s@) + "\""@,
            Json::Array(a) => "["@ + canon_items(a@, (fuel - 1) as nat) + "]"@,
            Json::Object(m) => "{"@ + canon_members(m@, (fuel - 1) as nat) + "}"@,
        }
    }
}

pub open spec fn canon_items(s: Seq<Json>, fuel: nat) -> Seq<char>
    decreases fuel, 1nat, s.len(),
{
    if s.len() == 0 {
        Seq::empty()
    } else {
        canon_items(s.drop_last(), fuel) + canon(s.last(), fuel) + ","@
    }
}

pub open spec fn canon_members(s: Seq<(String, Json)>, fuel: nat) -> Seq<char>
    decreases fuel, 1nat, s.len(),
{
    if s.len() == 0 {
        Seq::empty()
    } else {
        canon_members(s.drop_last(), fuel) + "\""@ + escaped(s.last().0@) + "\":"@ + canon(s.last().1, fuel) + ","@
    }
}

/// Appends `s` escaped.
fn write_escaped(out: &mut String, s: &str)
    ensures
        final(out)@ == old(out)@ + escaped(s@),
{
    let n = s.unicode_len();
    let mut i: usize = 0;
    let ghost o0 = out@;
    while i < n
        invariant
            n == s@.len(),
            i <= n,
            out@ == o0 + escaped(s@.subrange(0, i as int)),
        decreases n - i,
    {
        let c = s.get_char(i);
        proof {
            assert(s@.subrange(0, i + 1).drop_last() =~= s@.subrange(0, i as int));
        }
        proof {
            assert(s@.subrange(0, i + 1).last() == c);
        }
        if c == '"' {
            let e = "\\\"";
            proof {
                reveal_strlit("\\\"");
            }
            assert(e@ =~= seq!['\\', '"']);
            out.append(e);
        } else if c == '\\' {
            let e = "\\\\";
            proof {
                reveal_strlit("\\\\");
            }
            assert(e@ =~= seq!['\\', '\\']);
            out.append(e);
        } else {
            let e = s.substring_char(i, i + 1);
            assert(e@ =~= seq![c]);
            out.append(e);
        }
        assert(out@ =~= o0 + escaped(s@.subrange(0, i + 1)));
        i += 1;
    }
    assert(s@.subrange(0, n as int) =~= s@);
}

/// Appends the canonical encoding of `j`.
fn write_canonical(out: &mut String, j: &Json, fuel: usize)
    ensures
        final(out)@ == old(out)@ + canon(*j, fuel as nat),
    decreases fuel, 0nat, 0nat,
{
    if fuel == 0 {
        return;
    }
    match j {
        Json::Null => out.append("null"),
        Json::Bool(b) => {
            if *b {
                out.append("true");
            } else {
                out.append("false");
            }
        },
        Json::Number(n) => {
            out.append("#");
            out.append(n.as_str());
            out.append(";");
        },
        Json::Str(s) => {
            out.append("\"");
            write_escaped(out, s.as_str());
            out.append("\"");
        },
        Json::Array(a) => {
            let ghost o0 = out@;
            out.append("[");
            let mut i: usize = 0;
            while i < a.len()
                invariant
                    fuel > 0,
                    i <= a@.len(),
                    out@ == o0 + "["@ + canon_items(a@.subrange(0, i as int), (fuel - 1) as nat),
                decreases a.len() - i,
            {
                proof {
                    assert(a@.subrange(0, i + 1).drop_last() =~= a@.subrange(0, i as int));
                }
                write_canonical(out, &a[i], fuel - 1);
                out.append(",");
                assert(out@ =~= o0 + "["@ + canon_items(a@.subrange(0, i + 1), (fuel - 1) as nat));
                i += 1;
            }
            assert(a@.subrange(0, i as int) =~= a@);
            out.append("]");
        },
        Json::Object(m) => {
            let ghost o0 = out@;
            out.append("{");
            let mut i: usize = 0;
            while i < m.len()
                invariant
                    fuel > 0,
                    i <= m@.len(),
                    out@ == o0 + "{"@ + canon_members(m@.subrange(0, i as int), (fuel - 1) as nat),
                decreases m.len() - i,
            {
                proof {
                    assert(m@.subrange(0, i + 1).drop_last() =~= m@.subrange(0, i as int));
                }
                out.append("\"");
                write_escaped(out, m[i].0.as_str());
                out.append("\":");
                write_canonical(out, &m[i].1, fuel - 1);
                out.append(",");
                assert(out@ =~= o0 + "{"@ + canon_members(m@.subrange(0, i + 1), (fuel - 1) as nat));
                i += 1;
            }
            assert(m@.subrange(0, i as int) =~= m@);
            out.append("}");
        },
    }
}

/// Canonical encoding of a whole tree.
pub open spec fn canonical_spec(j: Json) -> Seq<char> {
    canon(j, MAX_DEPTH as nat)
}

/// The canonical encoding of a tree.
pub fn canonical_text(j: &Json) -> (r: String)
    ensures
        r@ == canonical_spec(*j),
{
    let mut out = String::new();
    write_canonical(&mut out, j, MAX_DEPTH);
    assert(out@ =~= canonical_spec(*j));
    out
}

/// The SHA-256 digest of the UTF-8 encoding of a text.
pub uninterp spec fn sha256_of(s: Seq<char>) -> Seq<u8>;

/// Relies on `sha2::Sha256::digest`: the 32-byte SHA-256 digest of the
/// UTF-8 bytes of `s`.
#[verifier::external_body]
fn sha256_digest(s: &str) -> (r: Vec<u8>)
    ensures
        r@ == sha256_of(s@),
        r@.len() == 32,
{
    <sha2::Sha256 as sha2::Digest>::digest(s.as_bytes()).to_vec()
}

/// Lower-case hex digits.
pub open spec fn hex_digits() -> Seq<char> {
    "0123456789abcdef"@
}

/// Two lower-case hex digits per byte, high nibble first.
pub open spec fn hex_spec(b: Seq<u8>) -> Seq<char>
    decreases b.len(),
{
    if b.len() == 0 {
        Seq::empty()
    } else {
        hex_spec(b.drop_last()) + seq![hex_digits()[(b.last() / 16) as int], hex_digits()[(b.last() % 16) as int]]
    }
}

/// Length of the digests the library writes, in bytes.
pub const DIGEST_BYTES: usize = 8;

/// The digest the library writes for a text: the first 8 bytes of its
/// SHA-256 digest, as 16 lower-case hex digits.
pub open spec fn short_digest(s: Seq<char>) -> Seq<char> {
    hex_spec(sha256_of(s).subrange(0, DIGEST_BYTES as int))
}

/// The short digest of `content`.
pub fn compute_hash(content: &str) -> (r: String)
    ensures
        r@ == short_digest(content@),
        r@.len() == 16,
{
    let d = sha256_digest(content);
    let digits = "0123456789abcdef";
    proof {
        reveal_strlit("0123456789abcdef");
    }
    let mut r = String::new();
    let mut i: usize = 0;
    while i < DIGEST_BYTES
        invariant
            d@.len() == 32,
            digits@ == hex_digits(),
            digits@.len() == 16,
            i <= DIGEST_BYTES,
            r@ == hex_spec(d@.subrange(0, i as int)),
            r@.len() == 2 * i,
        decreases DIGEST_BYTES - i,
    {
        let b = d[i];
        let hi = (b / 16) as usize;
        let lo = (b % 16) as usize;
        let h = digits.substring_char(hi, hi + 1);
        let l = digits.substring_char(lo, lo + 1);
        proof {
            assert(d@.subrange(0, i + 1).drop_last() =~= d@.subrange(0, i as int));
            assert(h@ =~= seq![hex_digits()[hi as int]]);
            assert(l@ =~= seq![hex_digits()[lo as int]]);
        }
        r.append(h);
        r.append(l);
        assert(r@ =~= hex_spec(d@.subrange(0, i + 1)));
        i += 1;
    }
    r
}

/// Content digest of a tree: the digest of its canonical encoding.
pub open spec fn digest_spec(j: Json) -> Seq<char> {
    short_digest(canonical_spec(j))
}

/// The content digest of a tree.
pub fn json_digest(j: &Json) -> (r: String)
    ensures
        r@ == digest_spec(*j),
{
    compute_hash(canonical_text(j).as_str())
}

} // verus!
