use vstd::prelude::*;
use vstd::utf8::encode_utf8;

use crate::store::ShFile;

verus! {

/// A fence line starts at `p`: the line holds exactly three dashes.
pub open spec fn is_fence_at(s: Seq<char>, p: int) -> bool {
    &&& 0 <= p
    &&& p + 3 <= s.len()
    &&& (p == 0 || s[p - 1] == '\n')
    &&& s[p] == '-'
    &&& s[p + 1] == '-'
    &&& s[p + 2] == '-'
    &&& (p + 3 == s.len() || s[p + 3] == '\n')
}

/// The text begins with a fence line.
pub open spec fn opens_with_fence(s: Seq<char>) -> bool {
    is_fence_at(s, 0)
}

/// `p` is the first fence line after the opening one.
pub open spec fn is_closing_fence(s: Seq<char>, p: int) -> bool {
    &&& 4 <= p
    &&& is_fence_at(s, p)
    &&& forall|q: int| 4 <= q < p ==> !#[trigger] is_fence_at(s, q)
}

pub open spec fn has_closing_fence(s: Seq<char>) -> bool {
    exists|p: int| is_closing_fence(s, p)
}

/// What lies strictly between the opening fence and the fence line at `p`.
pub open spec fn meta_before(s: Seq<char>, p: int) -> Seq<char> {
    if p <= 4 {
        Seq::empty()
    } else {
        s.subrange(4, p - 1)
    }
}

/// What follows the fence line at `p`, without its line break.
pub open spec fn body_after(s: Seq<char>, p: int) -> Seq<char> {
    if p + 3 >= s.len() {
        Seq::empty()
    } else {
        s.subrange(p + 4, s.len() as int)
    }
}

/// The metadata block and the body of a text: both fences must be there,
/// otherwise the metadata is empty and the body is the whole text.
pub open spec fn split_front_matter(s: Seq<char>) -> (Seq<char>, Seq<char>) {
    if opens_with_fence(s) && has_closing_fence(s) {
        let p = choose|p: int| is_closing_fence(s, p);
        (meta_before(s, p), body_after(s, p))
    } else {
        (Seq::empty(), s)
    }
}

/// No line of `m` is a fence line.
pub open spec fn has_no_fence_line(m: Seq<char>) -> bool {
    forall|p: int| !#[trigger] is_fence_at(m, p)
}

/// The text `FENCE \n meta \n FENCE \n body`.
pub open spec fn fenced(meta: Seq<char>, body: Seq<char>) -> Seq<char> {
    seq!['-', '-', '-', '\n'] + meta + seq!['\n', '-', '-', '-', '\n'] + body
}

/// There is at most one closing fence.
pub proof fn lemma_closing_fence_unique(s: Seq<char>, p: int, q: int)
    requires
        is_closing_fence(s, p),
        is_closing_fence(s, q),
    ensures
        p == q,
{
    if p < q {
        assert(!is_fence_at(s, p));
    } else if q < p {
        assert(!is_fence_at(s, q));
    }
}

/// The split found at a closing fence `p`.
pub proof fn lemma_split_at_closing(s: Seq<char>, p: int)
    requires
        opens_with_fence(s),
        is_closing_fence(s, p),
    ensures
        split_front_matter(s) == (meta_before(s, p), body_after(s, p)),
{
    let c = choose|c: int| is_closing_fence(s, c);
    lemma_closing_fence_unique(s, p, c);
}

/// A text that does not begin with a fence line has no metadata, and its
/// body is the whole text.
pub proof fn lemma_unfenced_text_is_body(s: Seq<char>)
    requires
        !opens_with_fence(s),
    ensures
        split_front_matter(s) == (Seq::<char>::empty(), s),
{
}

/// A text with an opening fence and no closing fence has no metadata, and
/// its body is the whole text, the opening fence included.
pub proof fn lemma_unclosed_fence_is_body(s: Seq<char>)
    requires
        opens_with_fence(s),
        forall|p: int| 4 <= p ==> !#[trigger] is_fence_at(s, p),
    ensures
        split_front_matter(s) == (Seq::<char>::empty(), s),
{
}

/// A text `FENCE \n meta \n FENCE \n body` splits into `meta` and `body`,
/// byte for byte, when no line of `meta` is itself a fence line.
pub proof fn lemma_fenced_text_splits(meta: Seq<char>, body: Seq<char>)
    requires
        has_no_fence_line(meta),
    ensures
        split_front_matter(fenced(meta, body)) == (meta, body),
{
    let s = fenced(meta, body);
    let m = meta.len() as int;
    let p = 5 + m;
    assert(s[0] == '-' && s[1] == '-' && s[2] == '-' && s[3] == '\n');
    assert(opens_with_fence(s));
    assert(s[p - 1] == '\n' && s[p] == '-' && s[p + 1] == '-' && s[p + 2] == '-' && s[p + 3]
        == '\n');
    assert(is_fence_at(s, p));
    assert forall|q: int| 4 <= q < p implies !#[trigger] is_fence_at(s, q) by {
        if is_fence_at(s, q) {
            if q + 3 <= 4 + m {
                assert(s[q] == meta[q - 4]);
                assert(s[q + 1] == meta[q - 3]);
                assert(s[q + 2] == meta[q - 2]);
                if q > 4 {
                    assert(s[q - 1] == meta[q - 5]);
                }
                if q + 3 < 4 + m {
                    assert(s[q + 3] == meta[q - 1]);
                }
                assert(is_fence_at(meta, q - 4));
            } else {
                assert(s[4 + m] == '\n');
            }
        }
    }
    assert(is_closing_fence(s, p));
    lemma_split_at_closing(s, p);
    assert(meta_before(s, p) =~= meta);
    assert(body_after(s, p) =~= body);
}

/// Whether a fence line starts at `p` of `cs`.
fn fence_at(cs: &Vec<char>, p: usize) -> (r: bool)
    ensures
        r == is_fence_at(cs@, p as int),
{
    let n = cs.len();
    if p > n || n - p < 3 {
        return false;
    }
    (p == 0 || cs[p - 1] == '\n') && cs[p] == '-' && cs[p + 1] == '-' && cs[p + 2] == '-' && (p
        + 3 == n || cs[p + 3] == '\n')
}

/// The characters of `text`, in order.
fn chars_of(text: &str) -> (r: Vec<char>)
    ensures
        r@ == text@,
{
    broadcast use vstd::string::group_string_axioms;

    let mut cs: Vec<char> = Vec::new();
    for c in it: text.chars()
        invariant
            cs@ == it.seq().take(it.index() as int),
    {
        cs.push(c);
    }
    cs
}

/// Splits `text` into its front-matter block and its body.
pub fn lexer(text: &str) -> (r: (String, String))
    ensures
        (r.0@, r.1@) == split_front_matter(text@),
{
    let cs = chars_of(text);
    let n = cs.len();
    if !fence_at(&cs, 0) {
        return (String::new(), text.to_owned());
    }
    let mut p: usize = 4;
    while p < n
        invariant
            4 <= p,
            n == cs@.len(),
            cs@ == text@,
            opens_with_fence(text@),
            forall|q: int| 4 <= q < p ==> !#[trigger] is_fence_at(text@, q),
        decreases n - p,
    {
        if fence_at(&cs, p) {
            proof {
                assert(is_closing_fence(text@, p as int));
                lemma_split_at_closing(text@, p as int);
            }
            let meta = if p == 4 {
                String::new()
            } else {
                text.substring_char(4, p - 1).to_owned()
            };
            let body = if p + 3 >= n {
                String::new()
            } else {
                text.substring_char(p + 4, n).to_owned()
            };
            return (meta, body);
        }
        p = p + 1;
    }
    proof {
        assert forall|q: int| 4 <= q implies !#[trigger] is_fence_at(text@, q) by {
            if q >= p {
                assert(q + 3 > text@.len());
            }
        }
        lemma_unclosed_fence_is_body(text@);
    }
    (String::new(), text.to_owned())
}

#[verifier::external_type_specification]
#[verifier::external_body]
pub struct ExScanError(yaml_rust::ScanError);

/// Whether a text is a well-formed YAML stream.
pub uninterp spec fn yaml_loads(s: Seq<char>) -> bool;

/// Relies on yaml_rust::YamlLoader::load_from_str: the documents of a YAML
/// stream, or the error that stopped the scan; which of the two comes depends
/// on the text alone.
#[verifier::external_body]
pub(crate) fn to_yaml(matter: &str) -> (r: Result<Vec<yaml_rust::Yaml>, yaml_rust::ScanError>)
    ensures
        r is Ok <==> yaml_loads(matter@),
{
    yaml_rust::YamlLoader::load_from_str(matter)
}

/// Whether the metadata block of `text` is accepted: parsing is off, the
/// block is empty, or it parses.
pub open spec fn front_matter_loads(text: Seq<char>, parse: bool) -> bool {
    let meta = split_front_matter(text).0;
    !parse || meta.len() == 0 || yaml_loads(meta)
}

/// `file` is the record of `text`: the body's bytes, and no metadata where
/// parsing is off or the block is empty.
pub open spec fn record_of(file: ShFile, text: Seq<char>, parse: bool) -> bool {
    let (meta, body) = split_front_matter(text);
    &&& file.content@ == encode_utf8(body)
    &&& (!parse || meta.len() == 0) ==> file.frontmatter@.len() == 0
}

/// Builds the record of one file from its text: the front matter is split
/// off, and parsed where `parse` is set and the block is not empty.
pub fn read_file(text: &str, parse: bool) -> (r: Result<ShFile, yaml_rust::ScanError>)
    ensures
        r is Ok <==> front_matter_loads(text@, parse),
        r matches Ok(file) ==> record_of(file, text@, parse),
{
    let (meta, body) = lexer(text);
    let content = body.as_str().as_bytes_vec();
    if !parse || meta.unicode_len() == 0 {
        return Ok(ShFile { frontmatter: Vec::new(), content });
    }
    match to_yaml(meta.as_str()) {
        Ok(frontmatter) => Ok(ShFile { frontmatter, content }),
        Err(e) => Err(e),
    }
}

} // verus!
