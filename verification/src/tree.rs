use vstd::prelude::*;
use vstd::utf8::encode_utf8;

use crate::constants::{file_is_included, should_include_file};
use crate::models::{FileMetadata, FileNode, NodeType, WorktreeData};
use crate::table::keys_distinct;
use crate::sorting::{is_permutation, permutation_witness, sort_by_le, sorted_by_le, TotalPreorder};
use crate::text::{
    chars_eq, decimal, decimal_chars, join, join_chars, lemma_lex_le_total, lemma_lex_le_trans,
    lemma_join_split, lemma_split_join, lemma_split_nonempty, lex_le, lex_le_chars, push_chars, push_str, repeat, repeat_chars,
    split, split_chars, string_from_chars, to_chars,
};

verus! {

broadcast use vstd::string::group_string_axioms;

// ---------------------------------------------------------------------------
// Dates
// ---------------------------------------------------------------------------

/// Latest Unix timestamp that the calendar can show: 262142-12-31 23:59:59 UTC.
pub const MAX_TIMESTAMP: i64 = 8210266876799;

/// Proleptic Gregorian (year, month, day) of the day `z` days after 1970-01-01 (`z >= 0`).
pub open spec fn civil_from_days(z: int) -> (int, int, int) {
    let z = z + 719468;
    let era = z / 146097;
    let doe = z - era * 146097;
    let yoe = (doe - doe / 1460 + doe / 36524 - doe / 146096) / 365;
    let y = yoe + era * 400;
    let doy = doe - (365 * yoe + yoe / 4 - yoe / 100);
    let mp = (5 * doy + 2) / 153;
    let d = doy - (153 * mp + 2) / 5 + 1;
    let m = if mp < 10 {
        mp + 3
    } else {
        mp - 9
    };
    (if m <= 2 {
        y + 1
    } else {
        y
    }, m, d)
}

/// Two decimal digits, zero padded.
pub open spec fn two_digits(n: nat) -> Seq<char> {
    if n < 10 {
        seq!['0'] + decimal(n)
    } else {
        decimal(n)
    }
}

/// A year as `%Y` writes it from 1970 on: four digits up to 9999, then a sign
/// and all digits.
pub open spec fn year_text(y: nat) -> Seq<char> {
    if y < 10000 {
        decimal(y)
    } else {
        seq!['+'] + decimal(y)
    }
}

/// The UTC calendar date of Unix time `ts` (`ts >= 0`) as `%Y-%m-%d`.
pub open spec fn date_text(ts: int) -> Seq<char> {
    let (y, m, d) = civil_from_days(ts / 86400);
    year_text(y as nat) + seq!['-'] + two_digits(m as nat) + seq!['-'] + two_digits(d as nat)
}

/// Formats a Unix timestamp as its UTC date, `YYYY-MM-DD`.
///
/// Trusted: calls chrono's `DateTime::<Utc>::from(SystemTime)` and `format("%Y-%m-%d")`.
/// The contract claims that chrono renders the proleptic Gregorian UTC date with a
/// four-digit year (years past 9999 with a leading `+`) and two-digit month and day.
/// Outside `0..=MAX_TIMESTAMP` the conversion panics (a negative value, cast to
/// `u64`, overflows `SystemTime`; later ones are past chrono's last date), so
/// `requires` leaves them out.
#[verifier::external_body]
fn format_timestamp(unix_ts: i64) -> (r: String)
    requires
        0 <= unix_ts <= MAX_TIMESTAMP,
    ensures
        r@ == date_text(unix_ts as int),
{
    let duration = std::time::Duration::from_secs(unix_ts as u64);
    let datetime = std::time::UNIX_EPOCH + duration;
    let datetime = chrono::DateTime::<chrono::Utc>::from(datetime);
    datetime.format("%Y-%m-%d").to_string()
}

// ---------------------------------------------------------------------------
// Download URLs
// ---------------------------------------------------------------------------

/// Bytes that percent-encoding leaves as they are: ASCII letters, digits, `-`, `.`, `_`, `~`.
pub open spec fn is_url_safe_byte(b: u8) -> bool {
    ||| 48 <= b <= 57
    ||| 65 <= b <= 90
    ||| 97 <= b <= 122
    ||| b == 45
    ||| b == 46
    ||| b == 95
    ||| b == 126
}

/// Upper-case hexadecimal digit for `d` (`0 <= d < 16`).
pub open spec fn hex_digit_upper(d: int) -> char {
    if d < 10 {
        (48 + d) as char
    } else {
        (55 + d) as char
    }
}

/// Percent-encoding of `bytes`: safe bytes stay, every other byte becomes `%XY`.
pub open spec fn percent_encode(bytes: Seq<u8>) -> Seq<char>
    decreases bytes.len(),
{
    if bytes.len() == 0 {
        Seq::empty()
    } else {
        let b = bytes.last();
        percent_encode(bytes.drop_last()) + if is_url_safe_byte(b) {
            seq![b as char]
        } else {
            seq!['%', hex_digit_upper(b as int / 16), hex_digit_upper(b as int % 16)]
        }
    }
}

/// Percent-encoding of the UTF-8 bytes of `s`.
pub open spec fn url_encoded(s: Seq<char>) -> Seq<char> {
    percent_encode(encode_utf8(s))
}

/// URL-encodes `s`.
///
/// Trusted: calls `urlencoding::encode`, which (per its source and documentation)
/// percent-encodes every UTF-8 byte except ASCII alphanumerics and `-`, `_`, `.`,
/// `~`, with upper-case hex digits.
#[verifier::external_body]
fn url_encode(s: &str) -> (r: String)
    ensures
        r@ == url_encoded(s@),
{
    urlencoding::encode(s).into_owned()
}

/// The `/`-separated pieces of a path.
pub open spec fn path_parts(path: Seq<char>) -> Seq<Seq<char>> {
    split(path, seq!['/'])
}

/// Download URL of the file at `path` in repository `repo`: each piece of the path
/// URL-encoded, the separators kept.
pub open spec fn download_url(repo: Seq<char>, path: Seq<char>) -> Seq<char> {
    "https://gh.hoa.moe/github.com/HOAHRB-Courses/"@ + repo + "/raw/main/"@ + join(
        path_parts(path).map_values(|p: Seq<char>| url_encoded(p)),
        "/"@,
    )
}

/// Percent-encoding never yields a `/`.
proof fn lemma_percent_encode_no_slash(bytes: Seq<u8>)
    ensures
        forall|k: int| 0 <= k < percent_encode(bytes).len() ==> #[trigger] percent_encode(bytes)[k] != '/',
    decreases bytes.len(),
{
    if bytes.len() > 0 {
        lemma_percent_encode_no_slash(bytes.drop_last());
        let b = bytes.last();
        let prev = percent_encode(bytes.drop_last());
        let tail = if is_url_safe_byte(b) {
            seq![b as char]
        } else {
            seq!['%', hex_digit_upper(b as int / 16), hex_digit_upper(b as int % 16)]
        };
        assert forall|k: int| 0 <= k < tail.len() implies #[trigger] tail[k] != '/' by {
            if !is_url_safe_byte(b) && k > 0 {
                let d = if k == 1 { b as int / 16 } else { b as int % 16 };
                assert(0 <= d < 16);
                assert(hex_digit_upper(d) != '/');
            }
        }
        assert forall|k: int| 0 <= k < percent_encode(bytes).len() implies #[trigger] percent_encode(
            bytes,
        )[k] != '/' by {
            if k < prev.len() {
                assert(percent_encode(bytes)[k] == prev[k]);
            } else {
                assert(percent_encode(bytes)[k] == tail[k - prev.len()]);
            }
        }
    }
}

/// The download URL keeps the file's path pieces apart: what follows `/raw/main/`
/// splits at `/` into exactly the pieces of the path, each percent-encoded, since
/// an encoded piece never holds a `/`.
pub proof fn law_download_url_keeps_path_pieces(repo: Seq<char>, path: Seq<char>)
    ensures
        download_url(repo, path) == "https://gh.hoa.moe/github.com/HOAHRB-Courses/"@ + repo
            + "/raw/main/"@ + join(path_parts(path).map_values(|p: Seq<char>| url_encoded(p)), "/"@),
        split(
            join(path_parts(path).map_values(|p: Seq<char>| url_encoded(p)), "/"@),
            seq!['/'],
        ) == path_parts(path).map_values(|p: Seq<char>| url_encoded(p)),
{
    let enc = path_parts(path).map_values(|p: Seq<char>| url_encoded(p));
    lemma_split_nonempty(path, seq!['/']);
    assert forall|i: int, k: int| 0 <= i < enc.len() && 0 <= k < enc[i].len() implies #[trigger] enc[i][k]
        != '/' by {
        lemma_percent_encode_no_slash(encode_utf8(path_parts(path)[i]));
    }
    reveal_strlit("/");
    assert("/"@ =~= seq!['/']);
    lemma_split_join(enc, '/');
}

/// The download URL of the file at `path` in repository `repo`.
pub fn generate_download_url(repo: &str, path: &str) -> (r: String)
    ensures
        r@ == download_url(repo@, path@),
{
    let chars = to_chars(path);
    let seps = vec!['/'];
    let parts = split_chars(&chars, &seps);
    let ghost ps = parts@.map_values(|p: Vec<char>| p@);
    assert(seps@ == seq!['/']);
    let mut encoded: Vec<Vec<char>> = Vec::new();
    for i in 0..parts.len()
        invariant
            ps == parts@.map_values(|p: Vec<char>| p@),
            encoded@.len() == i,
            forall|k: int| 0 <= k < i ==> (#[trigger] encoded@[k])@ == url_encoded(ps[k]),
    {
        let piece = string_from_chars(&parts[i]);
        let e = url_encode(piece.as_str());
        let ec = to_chars(e.as_str());
        encoded.push(ec);
    }
    let slash = vec!['/'];
    let joined = join_chars(&encoded, &slash);
    assert(encoded@.map_values(|p: Vec<char>| p@) =~= ps.map_values(|p: Seq<char>| url_encoded(p)));
    assert(slash@ == "/"@) by {
        reveal_strlit("/");
    }
    let mut r = String::new();
    push_str(&mut r, "https://gh.hoa.moe/github.com/HOAHRB-Courses/");
    push_str(&mut r, repo);
    push_str(&mut r, "/raw/main/");
    push_chars(&mut r, &joined);
    r
}

// ---------------------------------------------------------------------------
// File tree
// ---------------------------------------------------------------------------

/// Unicode lower-case mapping of a string, as `str::to_lowercase` computes it.
pub uninterp spec fn lowercase(s: Seq<char>) -> Seq<char>;

/// Whether every character of `s` is ASCII.
pub open spec fn is_ascii_text(s: Seq<char>) -> bool {
    forall|i: int| 0 <= i < s.len() ==> (#[trigger] s[i] as u32) < 128
}

/// `s` with the ASCII capitals `A`..`Z` made `a`..`z`, everything else kept.
pub open spec fn ascii_lowercase(s: Seq<char>) -> Seq<char> {
    s.map_values(|c: char| if 'A' <= c <= 'Z' { ((c as u32) + 32) as char } else { c })
}

/// The lower-case form by which names are ordered: for ASCII text its ASCII
/// lower-case form, otherwise `lowercase`.
pub open spec fn name_key(s: Seq<char>) -> Seq<char> {
    if is_ascii_text(s) {
        ascii_lowercase(s)
    } else {
        lowercase(s)
    }
}

/// The lower-case form of `s`.
///
/// Trusted: calls `str::to_lowercase`. On ASCII text the contract states the
/// result: std's source converts ASCII with `u8::to_ascii_lowercase` (`A`..`Z` to
/// `a`..`z`, every other character kept). Otherwise it only names the result
/// (`lowercase`): std maps the text by Unicode's lower-case mappings (with a rule
/// for a final sigma that looks at its neighbours), so it depends on the text
/// alone.
#[verifier::external_body]
fn to_lowercase(s: &str) -> (r: String)
    ensures
        r@ == (if is_ascii_text(s@) {
            ascii_lowercase(s@)
        } else {
            lowercase(s@)
        }),
{
    s.to_lowercase()
}

/// Tree order: folders before files, then names compared case-insensitively.
pub open spec fn node_le(a: &FileNode, b: &FileNode) -> bool {
    match (a.node_type, b.node_type) {
        (NodeType::Folder, NodeType::File) => true,
        (NodeType::File, NodeType::Folder) => false,
        _ => lex_le(name_key(a.name@), name_key(b.name@)),
    }
}

impl TotalPreorder for FileNode {
    open spec fn le_spec(&self, other: &Self) -> bool {
        node_le(self, other)
    }

    fn le(&self, other: &Self) -> (r: bool) {
        match (self.node_type, other.node_type) {
            (NodeType::Folder, NodeType::File) => true,
            (NodeType::File, NodeType::Folder) => false,
            _ => {
                let a = to_lowercase(self.name.as_str());
                let b = to_lowercase(other.name.as_str());
                let ac = to_chars(a.as_str());
                let bc = to_chars(b.as_str());
                lex_le_chars(&ac, &bc)
            },
        }
    }

    proof fn lemma_le_total(a: &Self, b: &Self) {
        lemma_lex_le_total(name_key(a.name@), name_key(b.name@));
    }

    proof fn lemma_le_trans(a: &Self, b: &Self, c: &Self) {
        if a.node_type == b.node_type && b.node_type == c.node_type {
            lemma_lex_le_trans(name_key(a.name@), name_key(b.name@), name_key(c.name@));
        }
    }
}

/// Whether entry `k` of `data` is shown in the tree.
pub open spec fn entry_in_tree(data: Seq<(String, FileMetadata)>, k: int) -> bool {
    0 <= k < data.len() && file_is_included(data[k].0@)
}

/// Whether `parts` lies strictly below `prefix`.
pub open spec fn lies_below(parts: Seq<Seq<char>>, prefix: Seq<Seq<char>>) -> bool {
    prefix.len() < parts.len() && parts.take(prefix.len() as int) == prefix
}

/// Whether some shown entry lies below `prefix` with next piece `name`.
pub open spec fn has_child_named(
    data: Seq<(String, FileMetadata)>,
    prefix: Seq<Seq<char>>,
    name: Seq<char>,
) -> bool {
    exists|k: int|
        #![trigger path_parts(data[k].0@)]
        entry_in_tree(data, k) && lies_below(path_parts(data[k].0@), prefix) && path_parts(
            data[k].0@,
        )[prefix.len() as int] == name
}

/// Whether some shown entry has exactly the path pieces `parts`.
pub open spec fn is_file_path(data: Seq<(String, FileMetadata)>, parts: Seq<Seq<char>>) -> bool {
    exists|k: int| #![trigger path_parts(data[k].0@)] entry_in_tree(data, k) && path_parts(data[k].0@) == parts
}

/// A file node shows entry `k` of repository `repo`.
pub open spec fn shows_entry(
    n: FileNode,
    data: Seq<(String, FileMetadata)>,
    repo: Seq<char>,
    k: int,
) -> bool {
    &&& n.url matches Some(u) && u@ == download_url(repo, data[k].0@)
    &&& n.size == data[k].1.size
    &&& match data[k].1.time {
        Some(t) => n.date matches Some(d) && d@ == date_text(t as int),
        None => n.date is None,
    }
}

/// `nodes` is the file tree, at the folder with path pieces `prefix`, of the shown
/// entries of `data`: one node per distinct next piece, in tree order.
pub open spec fn forest_shows(
    nodes: Seq<FileNode>,
    data: Seq<(String, FileMetadata)>,
    repo: Seq<char>,
    prefix: Seq<Seq<char>>,
) -> bool
    decreases nodes,
{
    &&& sorted_by_le(nodes)
    &&& forall|i: int, j: int|
        0 <= i < nodes.len() && 0 <= j < nodes.len() && i != j ==> (#[trigger] nodes[i]).name@
            != (#[trigger] nodes[j]).name@
    &&& forall|c: Seq<char>|
        #![trigger has_child_named(data, prefix, c)]
        has_child_named(data, prefix, c) <==> exists|i: int|
            0 <= i < nodes.len() && (#[trigger] nodes[i]).name@ == c
    &&& forall|i: int|
        0 <= i < nodes.len() ==> node_shows(
            #[trigger] nodes[i],
            data,
            repo,
            prefix.push(nodes[i].name@),
        )
}

/// `n` is the tree node for the path pieces `parts`: a file exactly when a shown
/// entry has these pieces (and then it shows such an entry), and its children are
/// the tree below `parts`.
pub open spec fn node_shows(
    n: FileNode,
    data: Seq<(String, FileMetadata)>,
    repo: Seq<char>,
    parts: Seq<Seq<char>>,
) -> bool
    decreases n,
{
    &&& (n.node_type == NodeType::File) == is_file_path(data, parts)
    &&& n.node_type == NodeType::File ==> exists|k: int|
        #![trigger path_parts(data[k].0@)]
        entry_in_tree(data, k) && path_parts(data[k].0@) == parts && shows_entry(n, data, repo, k)
    &&& n.node_type == NodeType::Folder ==> n.url is None && n.size is None && n.date is None
    &&& forest_shows(n.children@, data, repo, parts)
}

/// Every shown entry with a timestamp has one the calendar can show.
pub open spec fn timestamps_in_range(data: Seq<(String, FileMetadata)>) -> bool {
    forall|k: int|
        #![trigger data[k]]
        entry_in_tree(data, k) && data[k].1.time is Some ==> 0 <= data[k].1.time->0
            <= MAX_TIMESTAMP
}

/// Path pieces of a vector of character vectors.
pub open spec fn pieces(v: Vec<Vec<char>>) -> Seq<Seq<char>> {
    v@.map_values(|p: Vec<char>| p@)
}

/// `table` holds the path pieces of every entry of `data`.
pub open spec fn pieces_table_ok(data: Seq<(String, FileMetadata)>, table: Seq<Vec<Vec<char>>>) -> bool {
    &&& table.len() == data.len()
    &&& forall|k: int| 0 <= k < data.len() ==> pieces(#[trigger] table[k]) == path_parts(data[k].0@)
}

/// Whether some vector in `names` holds the characters of `c`.
fn contains_chars(names: &Vec<Vec<char>>, c: &Vec<char>) -> (r: bool)
    ensures
        r == exists|t: int| 0 <= t < names@.len() && (#[trigger] names@[t])@ == c@,
{
    for t in 0..names.len()
        invariant
            forall|u: int| 0 <= u < t ==> (#[trigger] names@[u])@ != c@,
    {
        if chars_eq(&names[t], c) {
            return true;
        }
    }
    false
}

proof fn lemma_pieces_below(parts: Seq<Seq<char>>, prefix: Seq<Seq<char>>, c: Seq<char>)
    requires
        lies_below(parts, prefix),
    ensures
        (parts == prefix.push(c)) == (parts.len() == prefix.len() + 1 && parts[prefix.len() as int]
            == c),
        lies_below(parts, prefix.push(c)) == (parts.len() > prefix.len() + 1 && parts[prefix.len() as int]
            == c),
{
    let d = prefix.len() as int;
    if parts.len() == d + 1 && parts[d] == c {
        assert(parts =~= prefix.push(c)) by {
            assert forall|i: int| 0 <= i < d implies parts[i] == prefix[i] by {
                assert(parts.take(d)[i] == parts[i]);
            }
        }
    }
    if parts.len() > d + 1 && parts[d] == c {
        assert(parts.take(d + 1) =~= prefix.push(c)) by {
            assert forall|i: int| 0 <= i < d implies parts[i] == prefix[i] by {
                assert(parts.take(d)[i] == parts[i]);
            }
        }
    }
    if lies_below(parts, prefix.push(c)) {
        assert(parts.take(d + 1)[d] == parts[d]);
    }
}

/// A sorted permutation of a forest with distinct names that shows the tree
/// below `prefix`, is itself the forest that shows it.
proof fn lemma_sorted_forest_shows(
    r: Seq<FileNode>,
    u: Seq<FileNode>,
    data: Seq<(String, FileMetadata)>,
    repo: Seq<char>,
    prefix: Seq<Seq<char>>,
)
    requires
        sorted_by_le(r),
        is_permutation(r, u),
        forall|i: int, j: int|
            0 <= i < u.len() && 0 <= j < u.len() && i != j ==> (#[trigger] u[i]).name@
                != (#[trigger] u[j]).name@,
        forall|c: Seq<char>|
            #![trigger has_child_named(data, prefix, c)]
            has_child_named(data, prefix, c) <==> exists|i: int|
                0 <= i < u.len() && (#[trigger] u[i]).name@ == c,
        forall|i: int|
            0 <= i < u.len() ==> node_shows(#[trigger] u[i], data, repo, prefix.push(u[i].name@)),
    ensures
        forest_shows(r, data, repo, prefix),
{
    let p = choose|p: Seq<int>| permutation_witness(r, u, p);
    assert forall|i: int, j: int|
        0 <= i < r.len() && 0 <= j < r.len() && i != j implies (#[trigger] r[i]).name@
        != (#[trigger] r[j]).name@ by {
        assert(r[i] == u[p[i]]);
        assert(r[j] == u[p[j]]);
        assert(p[i] != p[j]);
    }
    assert forall|i: int| 0 <= i < r.len() implies node_shows(
        #[trigger] r[i],
        data,
        repo,
        prefix.push(r[i].name@),
    ) by {
        assert(r[i] == u[p[i]]);
    }
    assert forall|c: Seq<char>| #![trigger has_child_named(data, prefix, c)]
        has_child_named(data, prefix, c) <==> exists|i: int|
            0 <= i < r.len() && (#[trigger] r[i]).name@ == c by {
        if has_child_named(data, prefix, c) {
            let i = choose|i: int| 0 <= i < u.len() && (#[trigger] u[i]).name@ == c;
            crate::sorting::lemma_injection_onto(p, u.len() as int, i);
            let k = choose|k: int| 0 <= k < p.len() && p[k] == i;
            assert(r[k] == u[i]);
        }
        if exists|i: int| 0 <= i < r.len() && (#[trigger] r[i]).name@ == c {
            let i = choose|i: int| 0 <= i < r.len() && (#[trigger] r[i]).name@ == c;
            assert(r[i] == u[p[i]]);
        }
    }
}

/// The tree of the shown entries of `data` that lie below `prefix`; `items` lists
/// (by index) exactly those entries.
fn build_level(
    data: &WorktreeData,
    table: &Vec<Vec<Vec<char>>>,
    items: &Vec<usize>,
    depth: usize,
    Ghost(prefix): Ghost<Seq<Seq<char>>>,
    repo: &str,
    bound: usize,
) -> (r: Vec<FileNode>)
    requires
        pieces_table_ok(data.0.entry_list(), table@),
        timestamps_in_range(data.0.entry_list()),
        prefix.len() == depth,
        depth <= bound,
        forall|m: int|
            0 <= m < items@.len() ==> {
                let k = #[trigger] items@[m] as int;
                &&& entry_in_tree(data.0.entry_list(), k)
                &&& lies_below(path_parts(data.0.entry_list()[k].0@), prefix)
                &&& path_parts(data.0.entry_list()[k].0@).len() <= bound
            },
        forall|k: int|
            entry_in_tree(data.0.entry_list(), k) && lies_below(#[trigger] path_parts(data.0.entry_list()[k].0@), prefix)
                ==> exists|m: int| 0 <= m < items@.len() && items@[m] == k,
    ensures
        forest_shows(r@, data.0.entry_list(), repo@, prefix),
    decreases bound - depth,
{
    let ghost d = data.0.entry_list();
    // distinct next pieces, in order of first appearance
    let mut names: Vec<Vec<char>> = Vec::new();
    let mut m: usize = 0;
    while m < items.len()
        invariant
            m <= items@.len(),
            pieces_table_ok(d, table@),
            d == data.0.entry_list(),
            prefix.len() == depth,
            forall|m: int|
                0 <= m < items@.len() ==> {
                    let k = #[trigger] items@[m] as int;
                    &&& entry_in_tree(d, k)
                    &&& lies_below(path_parts(d[k].0@), prefix)
                },
            forall|t1: int, t2: int|
                0 <= t1 < names@.len() && 0 <= t2 < names@.len() && t1 != t2 ==> (#[trigger] names@[t1])@
                    != (#[trigger] names@[t2])@,
            forall|t: int| 0 <= t < names@.len() ==> has_child_named(d, prefix, (#[trigger] names@[t])@),
            forall|m2: int|
                #![trigger items@[m2]]
                0 <= m2 < m ==> exists|t: int|
                    0 <= t < names@.len() && (#[trigger] names@[t])@ == path_parts(
                        d[items@[m2] as int].0@,
                    )[depth as int],
        decreases items@.len() - m,
    {
        let k = items[m];
        assert(pieces(table@[k as int]) == path_parts(d[k as int].0@));
        let c = &table[k][depth];
        assert(c@ == path_parts(d[k as int].0@)[depth as int]);
        let ghost old_names = names@;
        if !contains_chars(&names, c) {
            names.push(c.clone());
            assert(has_child_named(d, prefix, c@));
        }
        proof {
            assert forall|m2: int|
                #![trigger items@[m2]]
                0 <= m2 < m + 1 implies exists|t: int|
                0 <= t < names@.len() && (#[trigger] names@[t])@ == path_parts(
                    d[items@[m2] as int].0@,
                )[depth as int] by {
                if m2 < m {
                    let t = choose|t: int|
                        0 <= t < old_names.len() && (#[trigger] old_names[t])@ == path_parts(
                            d[items@[m2] as int].0@,
                        )[depth as int];
                    assert(names@[t] == old_names[t]);
                } else if names@.len() > old_names.len() {
                    assert(names@[old_names.len() as int]@ == c@);
                }
            }
        }
        m += 1;
    }
    let mut nodes: Vec<FileNode> = Vec::new();
    for t in 0..names.len()
        invariant
            pieces_table_ok(d, table@),
            timestamps_in_range(d),
            d == data.0.entry_list(),
            prefix.len() == depth,
            depth <= bound,
            forall|m: int|
                0 <= m < items@.len() ==> {
                    let k = #[trigger] items@[m] as int;
                    &&& entry_in_tree(d, k)
                    &&& lies_below(path_parts(d[k].0@), prefix)
                    &&& path_parts(d[k].0@).len() <= bound
                },
            forall|k: int|
                entry_in_tree(d, k) && lies_below(#[trigger] path_parts(d[k].0@), prefix) ==> exists|
                    m: int,
                | 0 <= m < items@.len() && items@[m] == k,
            forall|t: int| 0 <= t < names@.len() ==> has_child_named(d, prefix, (#[trigger] names@[t])@),
            nodes@.len() == t,
            forall|i: int|
                0 <= i < t ==> (#[trigger] nodes@[i]).name@ == names@[i]@ && node_shows(
                    nodes@[i],
                    d,
                    repo@,
                    prefix.push(names@[i]@),
                ),
    {
        let c = &names[t];
        let ghost below = prefix.push(c@);
        let mut file_entry: Option<usize> = None;
        let mut sub: Vec<usize> = Vec::new();
        for m in 0..items.len()
            invariant
                pieces_table_ok(d, table@),
                d == data.0.entry_list(),
                prefix.len() == depth,
                below == prefix.push(c@),
                forall|m: int|
                    0 <= m < items@.len() ==> {
                        let k = #[trigger] items@[m] as int;
                        &&& entry_in_tree(d, k)
                        &&& lies_below(path_parts(d[k].0@), prefix)
                        &&& path_parts(d[k].0@).len() <= bound
                    },
                file_entry matches Some(k) ==> entry_in_tree(d, k as int) && path_parts(
                    d[k as int].0@,
                ) == below,
                file_entry is None ==> forall|m2: int|
                    0 <= m2 < m ==> path_parts(d[(#[trigger] items@[m2]) as int].0@) != below,
                forall|s: int|
                    0 <= s < sub@.len() ==> {
                        let k = #[trigger] sub@[s] as int;
                        &&& entry_in_tree(d, k)
                        &&& lies_below(path_parts(d[k].0@), below)
                        &&& path_parts(d[k].0@).len() <= bound
                    },
                forall|m2: int|
                    0 <= m2 < m && lies_below(path_parts(d[(#[trigger] items@[m2]) as int].0@), below)
                        ==> exists|s: int| 0 <= s < sub@.len() && sub@[s] == items@[m2],
        {
            let k = items[m];
            let parts = &table[k];
            assert(pieces(table@[k as int]) == path_parts(d[k as int].0@));
            proof {
                lemma_pieces_below(path_parts(d[k as int].0@), prefix, c@);
            }
            let ghost old_sub = sub@;
            if chars_eq(&parts[depth], c) {
                if parts.len() == depth + 1 {
                    if file_entry.is_none() {
                        file_entry = Some(k);
                    }
                } else {
                    sub.push(k);
                }
            }
            proof {
                assert forall|m2: int|
                    0 <= m2 < m + 1 && lies_below(
                        path_parts(d[(#[trigger] items@[m2]) as int].0@),
                        below,
                    ) implies exists|s: int| 0 <= s < sub@.len() && sub@[s] == items@[m2] by {
                    if m2 < m {
                        let s = choose|s: int| 0 <= s < old_sub.len() && old_sub[s] == items@[m2];
                        assert(sub@[s] == old_sub[s]);
                    } else {
                        assert(sub@[old_sub.len() as int] == k);
                    }
                }
            }
        }
        proof {
            assert forall|k: int|
                entry_in_tree(d, k) && lies_below(#[trigger] path_parts(d[k].0@), below) implies exists|
                s: int,
            | 0 <= s < sub@.len() && sub@[s] == k by {
                assert(lies_below(path_parts(d[k].0@), prefix)) by {
                    let pp = path_parts(d[k].0@);
                    assert(pp.take(depth as int) =~= pp.take(depth + 1).take(depth as int));
                    assert(below.take(depth as int) =~= prefix);
                }
                let m = choose|m: int| 0 <= m < items@.len() && items@[m] == k;
                assert(lies_below(path_parts(d[items@[m] as int].0@), below));
            }
        }
        let ghost names_here = names@;
        let children = build_level(data, table, &sub, depth + 1, Ghost(below), repo, bound);
        let name = string_from_chars(c);
        let node = match file_entry {
            Some(k) => {
                let entry = &data.0.entries()[k];
                let url = generate_download_url(repo, entry.0.as_str());
                let date = match entry.1.time {
                    Some(ts) => Some(format_timestamp(ts)),
                    None => None,
                };
                FileNode {
                    name,
                    node_type: NodeType::File,
                    children,
                    url: Some(url),
                    size: entry.1.size,
                    date,
                }
            },
            None => FileNode {
                name,
                node_type: NodeType::Folder,
                children,
                url: None,
                size: None,
                date: None,
            },
        };
        proof {
            if file_entry is None {
                if is_file_path(d, below) {
                    let k = choose|k: int|
                        #![trigger path_parts(d[k].0@)]
                        entry_in_tree(d, k) && path_parts(d[k].0@) == below;
                    assert(lies_below(path_parts(d[k].0@), prefix)) by {
                        let pp = path_parts(d[k].0@);
                        assert(pp.take(depth as int) =~= prefix);
                    }
                    lemma_pieces_below(path_parts(d[k].0@), prefix, c@);
                    let m = choose|m: int| 0 <= m < items@.len() && items@[m] == k;
                    assert(path_parts(d[items@[m] as int].0@) != below);
                }
            } else {
                let k = file_entry->0 as int;
                assert(entry_in_tree(d, k) && path_parts(d[k].0@) == below && shows_entry(
                    node,
                    d,
                    repo@,
                    k,
                ));
            }
            assert(node_shows(node, d, repo@, below));
        }
        nodes.push(node);
    }
    proof {
        assert forall|i: int, j: int|
            0 <= i < nodes@.len() && 0 <= j < nodes@.len() && i != j implies (#[trigger] nodes@[i]).name@
            != (#[trigger] nodes@[j]).name@ by {
            assert(names@[i]@ != names@[j]@);
        }
        assert forall|c: Seq<char>| #![trigger has_child_named(d, prefix, c)]
            has_child_named(d, prefix, c) <==> exists|i: int|
                0 <= i < nodes@.len() && (#[trigger] nodes@[i]).name@ == c by {
            if has_child_named(d, prefix, c) {
                let k = choose|k: int|
                    #![trigger path_parts(d[k].0@)]
                    entry_in_tree(d, k) && lies_below(path_parts(d[k].0@), prefix) && path_parts(
                        d[k].0@,
                    )[prefix.len() as int] == c;
                let m = choose|m: int| 0 <= m < items@.len() && items@[m] == k;
                let t = choose|t: int|
                    0 <= t < names@.len() && (#[trigger] names@[t])@ == path_parts(
                        d[items@[m] as int].0@,
                    )[depth as int];
                assert(nodes@[t].name@ == c);
            }
            if exists|i: int| 0 <= i < nodes@.len() && (#[trigger] nodes@[i]).name@ == c {
                let i = choose|i: int| 0 <= i < nodes@.len() && (#[trigger] nodes@[i]).name@ == c;
                assert(has_child_named(d, prefix, names@[i]@));
            }
        }
    }
    let ghost unsorted = nodes@;
    let sorted = sort_by_le(nodes);
    proof {
        lemma_sorted_forest_shows(sorted@, unsorted, d, repo@, prefix);
    }
    sorted
}

/// The file tree of `flat_data`: shown files (see `should_include_file`) nested by
/// their `/`-separated path pieces, folders before files and names in
/// case-insensitive order at every level.
pub fn build_file_tree(flat_data: &WorktreeData, repo_name: &str) -> (r: Vec<FileNode>)
    requires
        timestamps_in_range(flat_data.0.entry_list()),
    ensures
        forest_shows(r@, flat_data.0.entry_list(), repo_name@, Seq::empty()),
{
    let ghost d = flat_data.0.entry_list();
    let entries = flat_data.0.entries();
    let mut table: Vec<Vec<Vec<char>>> = Vec::new();
    let mut items: Vec<usize> = Vec::new();
    let mut bound: usize = 0;
    let seps = vec!['/'];
    assert(seps@ == seq!['/']);
    for k in 0..entries.len()
        invariant
            d == flat_data.0.entry_list(),
            entries@ == d,
            seps@ == seq!['/'],
            table@.len() == k,
            forall|j: int| 0 <= j < k ==> pieces(#[trigger] table@[j]) == path_parts(d[j].0@),
            forall|m: int|
                0 <= m < items@.len() ==> {
                    let j = #[trigger] items@[m] as int;
                    &&& entry_in_tree(d, j)
                    &&& j < k
                    &&& lies_below(path_parts(d[j].0@), Seq::empty())
                    &&& path_parts(d[j].0@).len() <= bound
                },
            forall|j: int|
                entry_in_tree(d, j) && j < k ==> exists|m: int|
                    0 <= m < items@.len() && #[trigger] items@[m] == j,
    {
        let path = &entries[k].0;
        let chars = to_chars(path.as_str());
        let parts = split_chars(&chars, &seps);
        proof {
            lemma_split_nonempty(path@, seq!['/']);
            assert(path_parts(path@).take(0) =~= Seq::<Seq<char>>::empty());
        }
        let ghost old_items = items@;
        if should_include_file(path.as_str()) {
            items.push(k);
            if parts.len() > bound {
                bound = parts.len();
            }
            proof {
                assert forall|j: int| entry_in_tree(d, j) && j < k + 1 implies exists|m: int|
                    0 <= m < items@.len() && #[trigger] items@[m] == j by {
                    if j < k {
                        let m = choose|m: int| 0 <= m < old_items.len() && old_items[m] == j;
                        assert(items@[m] == old_items[m]);
                    } else {
                        assert(items@[old_items.len() as int] == k);
                    }
                }
            }
        }
        table.push(parts);
    }
    build_level(flat_data, &table, &items, 0, Ghost(Seq::empty()), repo_name, bound)
}

/// The node reached from `nodes` by following the names `ps`, one level per piece.
pub open spec fn node_at(nodes: Seq<FileNode>, ps: Seq<Seq<char>>) -> Option<FileNode>
    decreases ps.len(),
{
    if ps.len() == 0 {
        None
    } else if exists|i: int| 0 <= i < nodes.len() && (#[trigger] nodes[i]).name@ == ps[0] {
        let i = choose|i: int| 0 <= i < nodes.len() && (#[trigger] nodes[i]).name@ == ps[0];
        if ps.len() == 1 {
            Some(nodes[i])
        } else {
            node_at(nodes[i].children@, ps.drop_first())
        }
    } else {
        None
    }
}

/// The file of a shown entry whose path lies below `prefix` is found by following
/// the rest of its path from the forest at `prefix`.
proof fn lemma_shown_entry_found(
    nodes: Seq<FileNode>,
    data: Seq<(String, FileMetadata)>,
    repo: Seq<char>,
    prefix: Seq<Seq<char>>,
    k: int,
)
    requires
        forest_shows(nodes, data, repo, prefix),
        entry_in_tree(data, k),
        lies_below(path_parts(data[k].0@), prefix),
    ensures
        node_at(nodes, path_parts(data[k].0@).skip(prefix.len() as int)) matches Some(n) && n.node_type
            == NodeType::File && exists|k2: int|
            #![trigger path_parts(data[k2].0@)]
            entry_in_tree(data, k2) && path_parts(data[k2].0@) == path_parts(data[k].0@)
                && shows_entry(n, data, repo, k2),
    decreases path_parts(data[k].0@).len() - prefix.len(),
{
    let ps = path_parts(data[k].0@);
    let d = prefix.len() as int;
    let c = ps[d];
    assert(has_child_named(data, prefix, c));
    let rest = ps.skip(d);
    assert(rest[0] == c);
    let i = choose|i: int| 0 <= i < nodes.len() && (#[trigger] nodes[i]).name@ == rest[0];
    let n = nodes[i];
    assert(node_shows(n, data, repo, prefix.push(n.name@)));
    lemma_pieces_below(ps, prefix, c);
    if ps.len() == d + 1 {
        assert(ps == prefix.push(c));
        assert(is_file_path(data, prefix.push(c)));
        assert(rest.len() == 1);
    } else {
        lemma_shown_entry_found(n.children@, data, repo, prefix.push(c), k);
        assert(rest.drop_first() =~= ps.skip(d + 1));
    }
}

/// Every shown file of a worktree is in its file tree: following the pieces of its
/// path from the top leads to a file node, which shows an entry with that path
/// (its download URL, size and date).
pub proof fn law_file_tree_finds_every_shown_file(
    nodes: Seq<FileNode>,
    data: Seq<(String, FileMetadata)>,
    repo: Seq<char>,
    k: int,
)
    requires
        forest_shows(nodes, data, repo, Seq::empty()),
        entry_in_tree(data, k),
    ensures
        node_at(nodes, path_parts(data[k].0@)) matches Some(n) && n.node_type == NodeType::File
            && exists|k2: int|
            #![trigger path_parts(data[k2].0@)]
            entry_in_tree(data, k2) && path_parts(data[k2].0@) == path_parts(data[k].0@)
                && shows_entry(n, data, repo, k2),
{
    lemma_split_nonempty(data[k].0@, seq!['/']);
    assert(path_parts(data[k].0@).take(0) =~= Seq::<Seq<char>>::empty());
    lemma_shown_entry_found(nodes, data, repo, Seq::empty(), k);
    assert(path_parts(data[k].0@).skip(0) =~= path_parts(data[k].0@));
}

/// No shown path lies below another shown path, so no file is also a folder.
pub open spec fn no_nested_files(data: Seq<(String, FileMetadata)>) -> bool {
    forall|k1: int, k2: int|
        entry_in_tree(data, k1) && entry_in_tree(data, k2) ==> !lies_below(
            #[trigger] path_parts(data[k2].0@),
            #[trigger] path_parts(data[k1].0@),
        )
}

/// Every folder of the forest has children, and, where no shown file is also a
/// folder, every file has none.
pub open spec fn forest_shape(nodes: Seq<FileNode>, data: Seq<(String, FileMetadata)>) -> bool
    decreases nodes,
{
    forall|i: int| 0 <= i < nodes.len() ==> node_shape(#[trigger] nodes[i], data)
}

/// `n` and every node below it have the shape of `forest_shape`.
pub open spec fn node_shape(n: FileNode, data: Seq<(String, FileMetadata)>) -> bool
    decreases n,
{
    &&& n.node_type == NodeType::Folder ==> n.children@.len() > 0
    &&& no_nested_files(data) && n.node_type == NodeType::File ==> n.children@.len() == 0
    &&& forest_shape(n.children@, data)
}

/// With no path twice, every shown entry of a worktree is in its file tree itself:
/// following the pieces of its path leads to a file node with its download URL,
/// size and date.
pub proof fn law_file_tree_shows_each_entry(
    nodes: Seq<FileNode>,
    data: Seq<(String, FileMetadata)>,
    repo: Seq<char>,
    k: int,
)
    requires
        forest_shows(nodes, data, repo, Seq::empty()),
        keys_distinct(data),
        entry_in_tree(data, k),
    ensures
        node_at(nodes, path_parts(data[k].0@)) matches Some(n) && n.node_type == NodeType::File
            && shows_entry(n, data, repo, k),
        node_at(nodes, path_parts(data[k].0@)) matches Some(n) && n.url matches Some(u) && u@
            == "https://gh.hoa.moe/github.com/HOAHRB-Courses/"@ + repo + "/raw/main/"@ + join(
            path_parts(data[k].0@).map_values(|p: Seq<char>| url_encoded(p)),
            "/"@,
        ) && n.size == data[k].1.size && (data[k].1.time is None ==> n.date is None) && (
        data[k].1.time is Some ==> n.date is Some && n.date->0@ == date_text(data[k].1.time->0 as int)),
{
    law_file_tree_finds_every_shown_file(nodes, data, repo, k);
    let n = node_at(nodes, path_parts(data[k].0@))->0;
    let k2 = choose|k2: int|
        #![trigger path_parts(data[k2].0@)]
        entry_in_tree(data, k2) && path_parts(data[k2].0@) == path_parts(data[k].0@)
            && shows_entry(n, data, repo, k2);
    lemma_join_split(data[k].0@, '/');
    lemma_join_split(data[k2].0@, '/');
    assert(data[k2].0@ == data[k].0@);
}

/// The file tree has no empty folder at any level (so it is empty exactly when no
/// entry is shown), and where no shown path lies below another, its files are
/// leaves: the files of the tree are then exactly the shown entries.
pub proof fn law_file_tree_shape(
    nodes: Seq<FileNode>,
    data: Seq<(String, FileMetadata)>,
    repo: Seq<char>,
    prefix: Seq<Seq<char>>,
)
    requires
        forest_shows(nodes, data, repo, prefix),
    ensures
        forest_shape(nodes, data),
    decreases nodes,
{
    assert forall|i: int| 0 <= i < nodes.len() implies node_shape(#[trigger] nodes[i], data) by {
        let n = nodes[i];
        let parts = prefix.push(n.name@);
        assert(node_shows(n, data, repo, parts));
        assert(has_child_named(data, prefix, n.name@));
        let k = choose|k: int|
            #![trigger path_parts(data[k].0@)]
            entry_in_tree(data, k) && lies_below(path_parts(data[k].0@), prefix) && path_parts(
                data[k].0@,
            )[prefix.len() as int] == n.name@;
        lemma_pieces_below(path_parts(data[k].0@), prefix, n.name@);
        if n.node_type == NodeType::Folder {
            assert(!is_file_path(data, parts));
            assert(path_parts(data[k].0@) != parts);
            let c = path_parts(data[k].0@)[parts.len() as int];
            assert(has_child_named(data, parts, c));
            let j = choose|j: int| 0 <= j < n.children@.len() && (#[trigger] n.children@[j]).name@ == c;
        }
        if no_nested_files(data) && n.node_type == NodeType::File && n.children@.len() > 0 {
            let k1 = choose|k1: int|
                #![trigger path_parts(data[k1].0@)]
                entry_in_tree(data, k1) && path_parts(data[k1].0@) == parts;
            let child = n.children@[0];
            assert(has_child_named(data, parts, child.name@));
            let k2 = choose|k2: int|
                #![trigger path_parts(data[k2].0@)]
                entry_in_tree(data, k2) && lies_below(path_parts(data[k2].0@), parts) && path_parts(
                    data[k2].0@,
                )[parts.len() as int] == child.name@;
            assert(!lies_below(path_parts(data[k2].0@), path_parts(data[k1].0@)));
        }
        law_file_tree_shape(n.children@, data, repo, parts);
    }
}

/// At every level of the forest, folders come before files, and nodes of one kind
/// are in order of their lower-cased names.
pub open spec fn forest_ordered(nodes: Seq<FileNode>) -> bool
    decreases nodes,
{
    &&& forall|i: int, j: int|
        0 <= i < j < nodes.len() ==> ((#[trigger] nodes[i]).node_type == NodeType::File
            ==> (#[trigger] nodes[j]).node_type == NodeType::File) && (nodes[i].node_type
            == nodes[j].node_type ==> lex_le(name_key(nodes[i].name@), name_key(nodes[j].name@)))
    &&& forall|i: int| 0 <= i < nodes.len() ==> node_ordered(#[trigger] nodes[i])
}

/// The children of `n`, and all below them, are in `forest_ordered` order.
pub open spec fn node_ordered(n: FileNode) -> bool
    decreases n,
{
    forest_ordered(n.children@)
}

/// The file tree lists folders before files, and each kind in case-insensitive
/// name order, at every level.
pub proof fn law_file_tree_order(
    nodes: Seq<FileNode>,
    data: Seq<(String, FileMetadata)>,
    repo: Seq<char>,
    prefix: Seq<Seq<char>>,
)
    requires
        forest_shows(nodes, data, repo, prefix),
    ensures
        forest_ordered(nodes),
    decreases nodes,
{
    assert forall|i: int, j: int| 0 <= i < j < nodes.len() implies ((#[trigger] nodes[i]).node_type
        == NodeType::File ==> (#[trigger] nodes[j]).node_type == NodeType::File) && (
    nodes[i].node_type == nodes[j].node_type ==> lex_le(
        name_key(nodes[i].name@),
        name_key(nodes[j].name@),
    )) by {
        assert(nodes[i].le_spec(&nodes[j]));
    }
    assert forall|i: int| 0 <= i < nodes.len() implies node_ordered(#[trigger] nodes[i]) by {
        let n = nodes[i];
        assert(node_shows(n, data, repo, prefix.push(n.name@)));
        law_file_tree_order(n.children@, data, repo, prefix.push(n.name@));
    }
}

/// Every shown path of `data` has at most `bound` pieces.
pub open spec fn paths_within(data: Seq<(String, FileMetadata)>, bound: int) -> bool {
    forall|k: int| #![trigger data[k]] entry_in_tree(data, k) ==> path_parts(data[k].0@).len() <= bound
}

/// The folder depth of a forest is that of one of its nodes (or zero).
proof fn lemma_folder_depth_attained(nodes: Seq<FileNode>)
    ensures
        folder_depth(nodes) == 0 || exists|i: int|
            0 <= i < nodes.len() && folder_depth(nodes) == node_folder_depth(#[trigger] nodes[i]),
    decreases nodes.len(),
{
    if nodes.len() > 0 {
        lemma_folder_depth_attained(nodes.drop_last());
        let a = folder_depth(nodes.drop_last());
        if a > 0 && a >= node_folder_depth(nodes.last()) {
            let i = choose|i: int|
                0 <= i < nodes.drop_last().len() && a == node_folder_depth(
                    #[trigger] nodes.drop_last()[i],
                );
            assert(nodes[i] == nodes.drop_last()[i]);
        } else {
            assert(nodes[nodes.len() - 1] == nodes.last());
        }
    }
}

/// A tree below `prefix` of paths with at most `bound` pieces nests folders no
/// deeper than the pieces left.
pub proof fn lemma_forest_depth_bounded(
    nodes: Seq<FileNode>,
    data: Seq<(String, FileMetadata)>,
    repo: Seq<char>,
    prefix: Seq<Seq<char>>,
    bound: int,
)
    requires
        forest_shows(nodes, data, repo, prefix),
        paths_within(data, bound),
    ensures
        folder_depth(nodes) == 0 || folder_depth(nodes) + prefix.len() <= bound,
    decreases nodes,
{
    lemma_folder_depth_attained(nodes);
    if folder_depth(nodes) > 0 {
        let i = choose|i: int|
            0 <= i < nodes.len() && folder_depth(nodes) == node_folder_depth(#[trigger] nodes[i]);
        let n = nodes[i];
        assert(has_child_named(data, prefix, n.name@));
        let k = choose|k: int|
            #![trigger path_parts(data[k].0@)]
            entry_in_tree(data, k) && lies_below(path_parts(data[k].0@), prefix) && path_parts(
                data[k].0@,
            )[prefix.len() as int] == n.name@;
        assert(path_parts(data[k].0@).len() <= bound);
        assert(node_shows(n, data, repo, prefix.push(n.name@)));
        if n.node_type == NodeType::Folder {
            lemma_forest_depth_bounded(n.children@, data, repo, prefix.push(n.name@), bound);
        }
    }
}

// ---------------------------------------------------------------------------
// JSX
// ---------------------------------------------------------------------------

/// Indentation for nesting level `level`: two spaces per level.
pub open spec fn indent(level: nat) -> Seq<char> {
    repeat("  "@, level)
}

/// The attributes of a file's `<File>` element: name, then url, date and size
/// where present (a size of zero is left out).
pub open spec fn file_props(n: FileNode) -> Seq<Seq<char>> {
    let props = seq!["name=\""@ + n.name@ + "\""@];
    let props = match n.url {
        Some(u) => props.push("url=\""@ + u@ + "\""@),
        None => props,
    };
    let props = match n.date {
        Some(d) => props.push("date=\""@ + d@ + "\""@),
        None => props,
    };
    match n.size {
        Some(sz) => if sz > 0 {
            props.push("size={"@ + decimal(sz as nat) + "}"@)
        } else {
            props
        },
        None => props,
    }
}

/// The JSX entries of `nodes` at nesting level `level`, one or three per node.
pub open spec fn jsx_entries(nodes: Seq<FileNode>, level: nat) -> Seq<Seq<char>>
    decreases nodes,
{
    if nodes.len() == 0 {
        Seq::empty()
    } else {
        jsx_entries(nodes.drop_last(), level) + jsx_node_entries(nodes.last(), level)
    }
}

/// A folder gives its opening tag, the JSX of its children and its closing tag;
/// a file gives one self-closing `<File>` element.
pub open spec fn jsx_node_entries(n: FileNode, level: nat) -> Seq<Seq<char>>
    decreases n,
{
    match n.node_type {
        NodeType::Folder => seq![
            indent(level) + "<Folder name=\""@ + n.name@ + "\">"@,
            join(jsx_entries(n.children@, level + 1), "\n"@),
            indent(level) + "</Folder>"@,
        ],
        NodeType::File => seq![indent(level) + "<File "@ + join(file_props(n), " "@) + " />"@],
    }
}

/// The JSX for `nodes` at nesting level `level`: their entries, one per line.
pub open spec fn jsx_text(nodes: Seq<FileNode>, level: nat) -> Seq<char> {
    join(jsx_entries(nodes, level), "\n"@)
}

/// Joining one more piece appends the separator and the piece.
proof fn lemma_join_push(parts: Seq<Seq<char>>, sep: Seq<char>, x: Seq<char>)
    requires
        parts.len() >= 1,
    ensures
        join(parts.push(x), sep) == join(parts, sep) + sep + x,
{
    assert(parts.push(x).drop_last() =~= parts);
}

/// Joining two non-empty lists is joining each and putting the separator between.
proof fn lemma_join_concat(a: Seq<Seq<char>>, b: Seq<Seq<char>>, sep: Seq<char>)
    requires
        a.len() >= 1,
        b.len() >= 1,
    ensures
        join(a + b, sep) == join(a, sep) + sep + join(b, sep),
    decreases b.len(),
{
    if b.len() == 1 {
        assert(a + b =~= a.push(b[0]));
        lemma_join_push(a, sep, b[0]);
    } else {
        let b0 = b.drop_last();
        lemma_join_concat(a, b0, sep);
        assert(a + b =~= (a + b0).push(b.last()));
        lemma_join_push(a + b0, sep, b.last());
        assert(b =~= b0.push(b.last()));
        lemma_join_push(b0, sep, b.last());
    }
}

/// The optional ` key="value"` part of a file's element.
pub open spec fn quoted_part(key: Seq<char>, v: Option<String>) -> Seq<char> {
    if v is Some {
        " "@ + key + "=\""@ + v->0@ + "\""@
    } else {
        Seq::empty()
    }
}

/// The ` size={...}` part of a file's element, only for a size above zero.
pub open spec fn size_part(size: Option<u64>) -> Seq<char> {
    if size is Some && size->0 > 0 {
        " "@ + "size={"@ + decimal(size->0 as nat) + "}"@
    } else {
        Seq::empty()
    }
}

/// The attributes of a file, joined by spaces.
#[verifier::rlimit(40)]
proof fn lemma_file_props_join(n: FileNode)
    ensures
        join(file_props(n), " "@) == "name=\""@ + n.name@ + "\""@ + quoted_part("url"@, n.url)
            + quoted_part("date"@, n.date) + size_part(n.size),
{
    reveal_strlit("url=\"");
    reveal_strlit("url");
    reveal_strlit("date=\"");
    reveal_strlit("date");
    reveal_strlit("=\"");
    assert("url=\""@ =~= "url"@ + "=\""@);
    assert("date=\""@ =~= "date"@ + "=\""@);
    let sp = " "@;
    let p0 = seq!["name=\""@ + n.name@ + "\""@];
    let p1 = match n.url {
        Some(u) => p0.push("url=\""@ + u@ + "\""@),
        None => p0,
    };
    let p2 = match n.date {
        Some(d) => p1.push("date=\""@ + d@ + "\""@),
        None => p1,
    };
    assert(join(p0, sp) == p0[0]);
    if n.url is Some {
        lemma_join_push(p0, sp, "url=\""@ + n.url->0@ + "\""@);
    }
    assert(join(p1, sp) =~= p0[0] + quoted_part("url"@, n.url));
    if n.date is Some {
        lemma_join_push(p1, sp, "date=\""@ + n.date->0@ + "\""@);
    }
    assert(join(p2, sp) =~= p0[0] + quoted_part("url"@, n.url) + quoted_part("date"@, n.date));
    if n.size is Some && n.size->0 > 0 {
        lemma_join_push(p2, sp, "size={"@ + decimal(n.size->0 as nat) + "}"@);
    }
    assert(join(file_props(n), sp) =~= p0[0] + quoted_part("url"@, n.url) + quoted_part(
        "date"@,
        n.date,
    ) + size_part(n.size));
}

/// The entries of a single node are its own.
proof fn lemma_jsx_entries_one(n: FileNode, level: nat)
    ensures
        jsx_entries(seq![n], level) == jsx_node_entries(n, level),
{
    assert(seq![n].drop_last() =~= Seq::<FileNode>::empty());
    assert(seq![n].last() == n);
    assert(jsx_entries(Seq::<FileNode>::empty(), level) =~= Seq::<Seq<char>>::empty());
    assert(jsx_entries(seq![n], level) =~= jsx_node_entries(n, level));
}

/// A file renders as one `<File>` element at its indentation: its name, then its
/// URL and date where it has them, then its size where that is above zero, as
/// `name="..." url="..." date="..." size={...}`, nothing escaped.
pub proof fn law_file_jsx(n: FileNode, level: nat)
    requires
        n.node_type == NodeType::File,
    ensures
        jsx_text(seq![n], level) == repeat("  "@, level) + "<File "@ + "name=\""@ + n.name@ + "\""@
            + quoted_part("url"@, n.url) + quoted_part("date"@, n.date) + size_part(n.size) + " />"@,
{
    lemma_file_props_join(n);
    lemma_jsx_entries_one(n, level);
    let line = indent(level) + "<File "@ + join(file_props(n), " "@) + " />"@;
    assert(jsx_node_entries(n, level) == seq![line]);
    assert(join(seq![line], "\n"@) == line);
    assert(jsx_text(seq![n], level) =~= repeat("  "@, level) + "<File "@ + "name=\""@ + n.name@
        + "\""@ + quoted_part("url"@, n.url) + quoted_part("date"@, n.date) + size_part(n.size)
        + " />"@);
}

/// A folder renders as its opening tag at its indentation, the JSX of its children
/// one level deeper, and its closing tag, one per line; and several nodes render
/// one after the other, a line break between them.
pub proof fn law_folder_and_list_jsx(f: FileNode, nodes: Seq<FileNode>, n: FileNode, level: nat)
    requires
        f.node_type == NodeType::Folder,
        nodes.len() >= 1,
    ensures
        jsx_text(seq![f], level) == repeat("  "@, level) + "<Folder name=\""@ + f.name@ + "\">"@
            + "\n"@ + jsx_text(f.children@, level + 1) + "\n"@ + repeat("  "@, level) + "</Folder>"@,
        jsx_text(nodes.push(n), level) == jsx_text(nodes, level) + "\n"@ + jsx_text(seq![n], level),
{
    let nl = "\n"@;
    lemma_jsx_entries_one(f, level);
    let e = jsx_node_entries(f, level);
    assert(e.len() == 3);
    assert(e.drop_last() =~= seq![e[0], e[1]]);
    assert(e.last() == e[2]);
    assert(seq![e[0], e[1]].drop_last() =~= seq![e[0]]);
    assert(seq![e[0], e[1]].last() == e[1]);
    assert(join(seq![e[0]], nl) == e[0]);
    assert(join(seq![e[0], e[1]], nl) == e[0] + nl + e[1]);
    assert(join(e, nl) =~= e[0] + nl + e[1] + nl + e[2]);
    lemma_jsx_entries_nonempty(nodes, level);
    assert(nodes.push(n).drop_last() =~= nodes);
    assert(nodes.push(n).last() == n);
    lemma_jsx_entries_one(n, level);
    assert(jsx_node_entries(n, level).len() >= 1);
    assert(jsx_entries(nodes.push(n), level) == jsx_entries(nodes, level) + jsx_node_entries(n, level));
    lemma_join_concat(jsx_entries(nodes, level), jsx_node_entries(n, level), nl);
}

/// Every node renders to at least one entry.
proof fn lemma_jsx_entries_nonempty(nodes: Seq<FileNode>, level: nat)
    requires
        nodes.len() >= 1,
    ensures
        jsx_entries(nodes, level).len() >= 1,
{
    assert(jsx_node_entries(nodes.last(), level).len() >= 1);
}

/// How many levels of folders `nodes` nests: rendering a folder renders its
/// children one level deeper.
pub open spec fn folder_depth(nodes: Seq<FileNode>) -> nat
    decreases nodes,
{
    if nodes.len() == 0 {
        0
    } else {
        let a = folder_depth(nodes.drop_last());
        let b = node_folder_depth(nodes.last());
        if a >= b {
            a
        } else {
            b
        }
    }
}

pub open spec fn node_folder_depth(n: FileNode) -> nat
    decreases n,
{
    match n.node_type {
        NodeType::Folder => 1 + folder_depth(n.children@),
        NodeType::File => 0,
    }
}

/// The deepest indentation that rendering `nodes` from `level` builds fits in
/// memory (two bytes per level, at most `isize::MAX` bytes).
pub open spec fn indentation_fits(nodes: Seq<FileNode>, level: int) -> bool {
    2 * (level + folder_depth(nodes)) <= isize::MAX
}

proof fn lemma_folder_depth_bounds(nodes: Seq<FileNode>, i: int)
    requires
        0 <= i < nodes.len(),
    ensures
        folder_depth(nodes) >= node_folder_depth(nodes[i]),
    decreases nodes.len(),
{
    if i < nodes.len() - 1 {
        lemma_folder_depth_bounds(nodes.drop_last(), i);
    }
}

/// Appends the characters of `s` to `v`.
fn extend_str(v: &mut Vec<char>, s: &str)
    ensures
        final(v)@ == old(v)@ + s@,
{
    let mut t = to_chars(s);
    v.append(&mut t);
}

/// Appends the characters of `w` to `v`.
fn extend_chars(v: &mut Vec<char>, w: &Vec<char>)
    ensures
        final(v)@ == old(v)@ + w@,
{
    let mut t = w.clone();
    v.append(&mut t);
}

/// The attributes of the `<File>` element for `node`.
fn file_props_exec(node: &FileNode) -> (r: Vec<Vec<char>>)
    ensures
        r@.map_values(|p: Vec<char>| p@) == file_props(*node),
{
    let mut props: Vec<Vec<char>> = Vec::new();
    let mut name_prop = to_chars("name=\"");
    extend_str(&mut name_prop, node.name.as_str());
    extend_str(&mut name_prop, "\"");
    props.push(name_prop);
    let ghost p1 = props@.map_values(|p: Vec<char>| p@);
    assert(p1 =~= seq!["name=\""@ + node.name@ + "\""@]);
    if let Some(url) = &node.url {
        let mut prop = to_chars("url=\"");
        extend_str(&mut prop, url.as_str());
        extend_str(&mut prop, "\"");
        props.push(prop);
    }
    let ghost p2 = props@.map_values(|p: Vec<char>| p@);
    assert(p2 =~= match node.url {
        Some(u) => p1.push("url=\""@ + u@ + "\""@),
        None => p1,
    });
    if let Some(date) = &node.date {
        let mut prop = to_chars("date=\"");
        extend_str(&mut prop, date.as_str());
        extend_str(&mut prop, "\"");
        props.push(prop);
    }
    let ghost p3 = props@.map_values(|p: Vec<char>| p@);
    assert(p3 =~= match node.date {
        Some(d) => p2.push("date=\""@ + d@ + "\""@),
        None => p2,
    });
    if let Some(size) = node.size {
        if size > 0 {
            let mut prop = to_chars("size={");
            let digits = decimal_chars(size);
            extend_chars(&mut prop, &digits);
            extend_str(&mut prop, "}");
            props.push(prop);
        }
    }
    assert(props@.map_values(|p: Vec<char>| p@) =~= file_props(*node));
    props
}

/// The JSX entries of `nodes` at `level`.
fn jsx_entries_exec(nodes: &[FileNode], level: usize) -> (r: Vec<Vec<char>>)
    requires
        indentation_fits(nodes@, level as int),
    ensures
        r@.map_values(|p: Vec<char>| p@) == jsx_entries(nodes@, level as nat),
    decreases nodes@,
{
    let unit = to_chars("  ");
    let ind = repeat_chars(&unit, level);
    let newline = to_chars("\n");
    let space = to_chars(" ");
    let mut out: Vec<Vec<char>> = Vec::new();
    for i in 0..nodes.len()
        invariant
            indentation_fits(nodes@, level as int),
            ind@ == indent(level as nat),
            newline@ == "\n"@,
            space@ == " "@,
            out@.map_values(|p: Vec<char>| p@) == jsx_entries(nodes@.take(i as int), level as nat),
    {
        let node = &nodes[i];
        let ghost before = out@.map_values(|p: Vec<char>| p@);
        proof {
            assert(nodes@.take(i + 1).drop_last() =~= nodes@.take(i as int));
            lemma_folder_depth_bounds(nodes@, i as int);
        }
        match node.node_type {
            NodeType::Folder => {
                let mut open = ind.clone();
                extend_str(&mut open, "<Folder name=\"");
                extend_str(&mut open, node.name.as_str());
                extend_str(&mut open, "\">");
                let inner = jsx_entries_exec(node.children.as_slice(), level + 1);
                let inner_text = join_chars(&inner, &newline);
                let mut close = ind.clone();
                extend_str(&mut close, "</Folder>");
                out.push(open);
                out.push(inner_text);
                out.push(close);
                assert(out@.map_values(|p: Vec<char>| p@) =~= before + jsx_node_entries(
                    *node,
                    level as nat,
                ));
            },
            NodeType::File => {
                let props = file_props_exec(node);
                let joined = join_chars(&props, &space);
                let mut line = ind.clone();
                extend_str(&mut line, "<File ");
                extend_chars(&mut line, &joined);
                extend_str(&mut line, " />");
                out.push(line);
                assert(out@.map_values(|p: Vec<char>| p@) =~= before + jsx_node_entries(
                    *node,
                    level as nat,
                ));
            },
        }
    }
    assert(nodes@.take(nodes@.len() as int) =~= nodes@);
    out
}

/// The JSX of a file tree for Fumadocs' `<Files>` component, indented from
/// `indent_level`, one element per line.
pub fn tree_to_jsx(nodes: &[FileNode], indent_level: usize) -> (r: String)
    requires
        indentation_fits(nodes@, indent_level as int),
    ensures
        r@ == jsx_text(nodes@, indent_level as nat),
{
    let entries = jsx_entries_exec(nodes, indent_level);
    let newline = to_chars("\n");
    let text = join_chars(&entries, &newline);
    string_from_chars(&text)
}

} // verus!
