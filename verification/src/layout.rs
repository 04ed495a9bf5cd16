//! Where a namespace keeps its objects in the bucket:
//!
//! ```text
//! namespaces/{ns}/HEAD
//! namespaces/{ns}/manifests/v-{n}.json.gz
//! namespaces/{ns}/files/{path...}/v-{h}
//! ```
use crate::text;
use vstd::prelude::*;

verus! {

pub open spec fn manifest_head_key_text(ns: Seq<char>) -> Seq<char> {
    "namespaces/"@ + ns + "/HEAD"@
}

pub open spec fn manifest_version_key_text(ns: Seq<char>, version: nat) -> Seq<char> {
    "namespaces/"@ + ns + "/manifests/v-"@ + text::decimal(version) + ".json.gz"@
}

/// A file has a folder for each version of its content; without a version, or with an
/// empty one, the key names the file itself.
pub open spec fn file_key_text(ns: Seq<char>, path: Seq<char>, hash: Option<Seq<char>>) -> Seq<
    char,
> {
    let file = "namespaces/"@ + ns + "/files/"@ + path;
    match hash {
        Some(h) => if h.len() > 0 {
            file + "/v-"@ + h
        } else {
            file
        },
        None => file,
    }
}

/// The key of the file that names the current manifest version.
pub fn manifest_head_key(ns: &str) -> (r: String)
    ensures
        r@ == manifest_head_key_text(ns@),
{
    let mut r = "namespaces/".to_string();
    r.append(ns);
    r.append("/HEAD");
    r
}

/// The key of one manifest version.
pub fn manifest_version_key(ns: &str, version: u64) -> (r: String)
    ensures
        r@ == manifest_version_key_text(ns@, version as nat),
{
    let mut r = "namespaces/".to_string();
    r.append(ns);
    r.append("/manifests/v-");
    text::push_decimal(&mut r, version);
    r.append(".json.gz");
    r
}

/// The key of a file, or of one version of it.
pub fn file_key(ns: &str, path: &str, hash: Option<&str>) -> (r: String)
    ensures
        r@ == file_key_text(
            ns@,
            path@,
            match hash {
                Some(h) => Some(h@),
                None => None,
            },
        ),
{
    let mut r = "namespaces/".to_string();
    r.append(ns);
    r.append("/files/");
    r.append(path);
    match hash {
        Some(h) => {
            if !h.is_empty() {
                r.append("/v-");
                r.append(h);
            }
        },
        None => {},
    }
    r
}

/// Manifests have the same key only if they are of the same namespace and version.
pub proof fn law_version_keys_differ(a: Seq<char>, v: nat, b: Seq<char>, w: nat)
    requires
        manifest_version_key_text(a, v) == manifest_version_key_text(b, w),
    ensures
        a == b,
        v == w,
{
    reveal_strlit("/manifests/v-");
    let key = manifest_version_key_text(a, v);
    let (head, mid, tail) = ("namespaces/"@, "/manifests/v-"@, ".json.gz"@);
    let (d, e) = (text::decimal(v), text::decimal(w));
    text::lemma_decimal(v);
    text::lemma_decimal(w);
    // The number ends where the tail begins, and has no hyphen in it.
    let n = key.len() - tail.len();
    assert(key[n - d.len() - 1] == '-') by {
        assert(n - d.len() - 1 == head.len() + a.len() + mid.len() - 1);
        assert(key[n - d.len() - 1] == mid[mid.len() - 1]);
    }
    assert(key[n - e.len() - 1] == '-') by {
        assert(n - e.len() - 1 == head.len() + b.len() + mid.len() - 1);
        assert(manifest_version_key_text(b, w)[n - e.len() - 1] == mid[mid.len() - 1]);
    }
    if d.len() < e.len() {
        let k = e.len() - d.len() - 1;
        assert(manifest_version_key_text(b, w)[n - d.len() - 1] == e[k]);
        assert(text::is_digit(e[k]));
    }
    if e.len() < d.len() {
        let k = d.len() - e.len() - 1;
        assert(key[n - e.len() - 1] == d[k]);
        assert(text::is_digit(d[k]));
    }
    assert(key.subrange(n - d.len(), n) =~= d);
    assert(manifest_version_key_text(b, w).subrange(n - d.len(), n) =~= e);
    text::law_decimal_injective(v, w);
    let m = head.len() as int;
    assert(key.subrange(m, m + a.len()) =~= a);
    assert(manifest_version_key_text(b, w).subrange(m, m + a.len()) =~= b);
}

/// What the keys of all objects of a namespace begin with.
pub open spec fn namespace_prefix(ns: Seq<char>) -> Seq<char> {
    "namespaces/"@ + ns + "/"@
}

/// `p` is the beginning of `s`.
pub open spec fn begins_with(s: Seq<char>, p: Seq<char>) -> bool {
    p.len() <= s.len() && s.take(p.len() as int) == p
}

/// No slash stands in `s`.
pub open spec fn without_slash(s: Seq<char>) -> bool {
    forall|i: int| 0 <= i < s.len() ==> #[trigger] s[i] != '/'
}

/// Every key of a namespace begins with the prefix of the namespace.
pub proof fn law_keys_in_namespace(
    ns: Seq<char>,
    version: nat,
    path: Seq<char>,
    hash: Option<Seq<char>>,
)
    ensures
        begins_with(manifest_head_key_text(ns), namespace_prefix(ns)),
        begins_with(manifest_version_key_text(ns, version), namespace_prefix(ns)),
        begins_with(file_key_text(ns, path, hash), namespace_prefix(ns)),
{
    reveal_strlit("/");
    reveal_strlit("/HEAD");
    reveal_strlit("/manifests/v-");
    reveal_strlit("/files/");
    let n = namespace_prefix(ns).len() as int;
    assert(manifest_head_key_text(ns).take(n) =~= namespace_prefix(ns));
    assert(manifest_version_key_text(ns, version).take(n) =~= namespace_prefix(ns));
    assert(file_key_text(ns, path, hash).take(n) =~= namespace_prefix(ns));
}

/// In a namespace the HEAD file, the manifests and the files have different keys.
pub proof fn law_keys_apart(
    ns: Seq<char>,
    version: nat,
    path: Seq<char>,
    hash: Option<Seq<char>>,
)
    ensures
        manifest_head_key_text(ns) != manifest_version_key_text(ns, version),
        manifest_head_key_text(ns) != file_key_text(ns, path, hash),
        manifest_version_key_text(ns, version) != file_key_text(ns, path, hash),
{
    reveal_strlit("/");
    reveal_strlit("/HEAD");
    reveal_strlit("/manifests/v-");
    reveal_strlit("/files/");
    let n = namespace_prefix(ns).len() as int;
    assert(manifest_head_key_text(ns)[n] == 'H');
    assert(manifest_version_key_text(ns, version)[n] == 'm');
    assert(file_key_text(ns, path, hash)[n] == 'f');
}

/// Files of a namespace with different paths have different keys, as long as the keys do
/// not name a version.
pub proof fn law_file_keys_differ(ns: Seq<char>, a: Seq<char>, b: Seq<char>)
    requires
        file_key_text(ns, a, None) == file_key_text(ns, b, None),
    ensures
        a == b,
{
    let n = ("namespaces/"@ + ns + "/files/"@).len() as int;
    assert(file_key_text(ns, a, None).skip(n) =~= a);
    assert(file_key_text(ns, b, None).skip(n) =~= b);
}

/// No key belongs to two namespaces, as long as neither has a slash in its name.
pub proof fn law_namespaces_apart(a: Seq<char>, b: Seq<char>, key: Seq<char>)
    requires
        without_slash(a),
        without_slash(b),
        begins_with(key, namespace_prefix(a)),
        begins_with(key, namespace_prefix(b)),
    ensures
        a == b,
{
    reveal_strlit("/");
    let n = "namespaces/"@.len() as int;
    let p = namespace_prefix(a);
    let q = namespace_prefix(b);
    assert forall|i: int| 0 <= i < p.len() implies key[i] == #[trigger] p[i] by {
        assert(key.take(p.len() as int)[i] == key[i]);
    }
    assert forall|i: int| 0 <= i < q.len() implies key[i] == #[trigger] q[i] by {
        assert(key.take(q.len() as int)[i] == key[i]);
    }
    assert(p[n + a.len()] == '/');
    assert(q[n + b.len()] == '/');
    if a.len() < b.len() {
        assert(q[n + a.len()] == b[a.len() as int]);
        assert(key[n + a.len()] == '/');
        assert(false);
    }
    if b.len() < a.len() {
        assert(p[n + b.len()] == a[b.len() as int]);
        assert(key[n + b.len()] == '/');
        assert(false);
    }
    assert forall|i: int| 0 <= i < a.len() implies a[i] == b[i] by {
        assert(p[n + i] == a[i]);
        assert(q[n + i] == b[i]);
        assert(key[n + i] == p[n + i]);
    }
    assert(a =~= b);
}

/// Behind the prefix of its namespace stands what an object is: the HEAD file, the manifest
/// of a version, or a file with its path; a version of a file has a name of its own behind
/// the name of the file.
pub proof fn law_keys_shape(ns: Seq<char>, version: nat, path: Seq<char>, hash: Seq<char>)
    ensures
        ({
            let n = namespace_prefix(ns).len() as int;
            let file = file_key_text(ns, path, None);
            &&& namespace_prefix(ns).take(11) == "namespaces/"@
            &&& n == 12 + ns.len()
            &&& namespace_prefix(ns).subrange(11, n - 1) == ns
            &&& namespace_prefix(ns).last() == '/'
            &&& manifest_head_key_text(ns).skip(n) == "HEAD"@
            &&& manifest_version_key_text(ns, version).skip(n) == "manifests/v-"@ + text::decimal(
                version,
            ) + ".json.gz"@
            &&& file.skip(n) == "files/"@ + path
            &&& hash.len() > 0 ==> file_key_text(ns, path, Some(hash)) == file + "/v-"@ + hash
            &&& hash.len() == 0 ==> file_key_text(ns, path, Some(hash)) == file
        }),
{
    reveal_strlit("namespaces/");
    reveal_strlit("/");
    reveal_strlit("/HEAD");
    reveal_strlit("HEAD");
    reveal_strlit("/manifests/v-");
    reveal_strlit("manifests/v-");
    reveal_strlit("/files/");
    reveal_strlit("files/");
    let p = namespace_prefix(ns);
    let n = p.len() as int;
    assert(p.take(11) =~= "namespaces/"@);
    assert(p.subrange(11, n - 1) =~= ns);
    assert(manifest_head_key_text(ns).skip(n) =~= "HEAD"@);
    assert(manifest_version_key_text(ns, version).skip(n) =~= "manifests/v-"@ + text::decimal(
        version,
    ) + ".json.gz"@);
    assert(file_key_text(ns, path, None).skip(n) =~= "files/"@ + path);
}

/// Versions of a file with different hashes have different keys, and so have files with
/// different paths under the same hash.
pub proof fn law_file_versions_differ(
    ns: Seq<char>,
    path: Seq<char>,
    hash: Seq<char>,
    other_path: Seq<char>,
    other_hash: Seq<char>,
)
    requires
        hash.len() > 0,
        other_hash.len() > 0,
    ensures
        file_key_text(ns, path, Some(hash)) == file_key_text(ns, path, Some(other_hash)) ==> hash
            == other_hash,
        file_key_text(ns, path, Some(hash)) == file_key_text(ns, other_path, Some(hash)) ==> path
            == other_path,
        file_key_text(ns, path, Some(hash)) != file_key_text(ns, path, None),
{
    let head = "namespaces/"@ + ns + "/files/"@;
    let mid = "/v-"@;
    let a = file_key_text(ns, path, Some(hash));
    let n = (head + path + mid).len() as int;
    assert(a.skip(n) =~= hash);
    assert(file_key_text(ns, path, Some(other_hash)).skip(n) =~= other_hash);
    let b = file_key_text(ns, other_path, Some(hash));
    if a == b {
        let h = head.len() as int;
        assert(a.subrange(h, a.len() - mid.len() - hash.len()) =~= path);
        assert(b.subrange(h, b.len() - mid.len() - hash.len()) =~= other_path);
    }
    assert(a.len() > file_key_text(ns, path, None).len());
}

} // verus!
