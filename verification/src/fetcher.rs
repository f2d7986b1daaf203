use vstd::prelude::*;
use vstd::utf8::{decode_utf8, valid_utf8};

use base64::Engine;

use crate::sorting::{is_permutation, sort_by_le, sorted_by_le, TotalPreorder};
use crate::text::{
    chars_starts_with, lemma_lex_le_total, lemma_trim_idempotent, lemma_lex_le_trans, lex_le, lex_le_chars, push_chars,
    push_str, starts_with, str_eq, string_from_chars, to_chars, trim, trim_chars, trim_end_char,
    trim_end_char_chars,
};

verus! {

broadcast use vstd::string::group_string_axioms;

// ---------------------------------------------------------------------------
// Repository discovery
// ---------------------------------------------------------------------------

/// Number of repositories that GitHub is asked for per page.
pub const REPOS_PER_PAGE: usize = 100;

/// What the repository listing of an organization says of one repository.
#[derive(Debug)]
pub struct RepositoryInfo {
    pub name: String,
    pub archived: bool,
    pub is_template: bool,
}

/// Course repositories are those that are neither hidden (name starting with
/// `.`), archived, nor templates.
pub open spec fn is_course_repository(r: RepositoryInfo) -> bool {
    !starts_with(r.name@, "."@) && !r.archived && !r.is_template
}

/// Names of the course repositories in `batch`, in order.
pub open spec fn course_names(batch: Seq<RepositoryInfo>) -> Seq<Seq<char>>
    decreases batch.len(),
{
    if batch.len() == 0 {
        Seq::empty()
    } else {
        let prev = course_names(batch.drop_last());
        if is_course_repository(batch.last()) {
            prev.push(batch.last().name@)
        } else {
            prev
        }
    }
}

pub open spec fn names_view(v: Seq<String>) -> Seq<Seq<char>> {
    v.map_values(|s: String| s@)
}

/// Code point order of strings.
impl TotalPreorder for String {
    open spec fn le_spec(&self, other: &Self) -> bool {
        lex_le(self@, other@)
    }

    fn le(&self, other: &Self) -> (r: bool) {
        let a = to_chars(self.as_str());
        let b = to_chars(other.as_str());
        lex_le_chars(&a, &b)
    }

    proof fn lemma_le_total(a: &Self, b: &Self) {
        lemma_lex_le_total(a@, b@);
    }

    proof fn lemma_le_trans(a: &Self, b: &Self, c: &Self) {
        lemma_lex_le_trans(a@, b@, c@);
    }
}

/// The state of listing an organization's course repositories page by page.
#[derive(Debug)]
pub struct RepoListing {
    /// The page to ask for next (from 1).
    pub page: u32,
    /// Names of the course repositories found so far.
    pub names: Vec<String>,
}

/// One step of the listing: `after` is `before` having taken in the page `batch`,
/// its course names added and, for a full page, the next page to ask for.
pub open spec fn listing_step(before: RepoListing, batch: Seq<RepositoryInfo>, after: RepoListing) -> bool {
    &&& names_view(after.names@) == names_view(before.names@) + course_names(batch)
    &&& after.page == if batch.len() >= REPOS_PER_PAGE {
        before.page + 1
    } else {
        before.page as int
    }
}

/// Course names of all `pages`, page after page.
pub open spec fn pages_course_names(pages: Seq<Seq<RepositoryInfo>>) -> Seq<Seq<char>>
    decreases pages.len(),
{
    if pages.len() == 0 {
        Seq::empty()
    } else {
        pages_course_names(pages.drop_last()) + course_names(pages.last())
    }
}

impl RepoListing {
    /// Listing starts at page 1 with no names.
    pub fn new() -> (r: RepoListing)
        ensures
            r.page == 1,
            r.names@.len() == 0,
    {
        RepoListing { page: 1, names: Vec::new() }
    }

    /// Takes in the repositories of the current page; returns whether another page
    /// must be asked for (a full page), and then moves to it.
    pub fn receive_page(&mut self, batch: &Vec<RepositoryInfo>) -> (more: bool)
        requires
            batch@.len() >= REPOS_PER_PAGE ==> old(self).page < u32::MAX,
        ensures
            more == (batch@.len() >= REPOS_PER_PAGE),
            listing_step(*old(self), batch@, *final(self)),
    {
        let ghost start = names_view(self.names@);
        let dot = to_chars(".");
        for i in 0..batch.len()
            invariant
                dot@ == "."@,
                self.page == old(self).page,
                names_view(self.names@) == start + course_names(batch@.take(i as int)),
        {
            assert(batch@.take(i + 1).drop_last() =~= batch@.take(i as int));
            assert(batch@.take(i + 1).last() == batch@[i as int]);
            let repo = &batch[i];
            let name = to_chars(repo.name.as_str());
            let ghost before = self.names@;
            if !chars_starts_with(&name, &dot) && !repo.archived && !repo.is_template {
                self.names.push(repo.name.clone());
                assert(is_course_repository(batch@[i as int]));
                assert(names_view(self.names@) =~= names_view(before).push(repo.name@));
                assert(names_view(self.names@) =~= start + course_names(batch@.take(i + 1)));
            } else {
                assert(!is_course_repository(batch@[i as int]));
            }
        }
        assert(batch@.take(batch@.len() as int) =~= batch@);
        if batch.len() < REPOS_PER_PAGE {
            false
        } else {
            self.page = self.page + 1;
            true
        }
    }

    /// The names found, in code point order.
    pub fn into_sorted_names(self) -> (r: Vec<String>)
        ensures
            sorted_by_le(r@),
            is_permutation(r@, self.names@),
    {
        sort_by_le(self.names)
    }
}

/// `name` is the name of a repository of `batch` that does not start with `.`
/// and is neither archived nor a template.
pub open spec fn names_kept_repository(name: Seq<char>, batch: Seq<RepositoryInfo>) -> bool {
    exists|k: int|
        0 <= k < batch.len() && (#[trigger] batch[k]).name@ == name && !starts_with(
            batch[k].name@,
            "."@,
        ) && !batch[k].archived && !batch[k].is_template
}

/// The course names of a page are the names of its repositories that do not start
/// with `.` and are neither archived nor templates: each such repository's name
/// is there, and nothing else.
pub proof fn law_course_names_of_page(batch: Seq<RepositoryInfo>)
    ensures
        course_names(batch).len() <= batch.len(),
        forall|m: int|
            0 <= m < course_names(batch).len() ==> names_kept_repository(
                #[trigger] course_names(batch)[m],
                batch,
            ),
        forall|k: int|
            0 <= k < batch.len() && !starts_with((#[trigger] batch[k]).name@, "."@) && !batch[k].archived
                && !batch[k].is_template ==> course_names(batch).contains(batch[k].name@),
    decreases batch.len(),
{
    if batch.len() > 0 {
        let init = batch.drop_last();
        law_course_names_of_page(init);
        let p = course_names(init);
        let cn = course_names(batch);
        assert forall|m: int| 0 <= m < cn.len() implies names_kept_repository(#[trigger] cn[m], batch) by {
            if m < p.len() {
                assert(cn[m] == p[m]);
                assert(names_kept_repository(p[m], init));
                let k = choose|k: int|
                    0 <= k < init.len() && (#[trigger] init[k]).name@ == p[m] && !starts_with(
                        init[k].name@,
                        "."@,
                    ) && !init[k].archived && !init[k].is_template;
                assert(batch[k] == init[k]);
            } else {
                assert(batch[batch.len() - 1] == batch.last());
            }
        }
        assert forall|k: int|
            0 <= k < batch.len() && !starts_with((#[trigger] batch[k]).name@, "."@) && !batch[k].archived
                && !batch[k].is_template implies cn.contains(batch[k].name@) by {
            if k < init.len() {
                assert(init[k] == batch[k]);
                let m = choose|m: int| 0 <= m < p.len() && p[m] == init[k].name@;
                assert(cn[m] == p[m]);
            } else {
                assert(cn[p.len() as int] == batch[k].name@);
            }
        }
    }
}

/// A sorted permutation of strings is one of their texts too.
proof fn lemma_names_view_permutation(r: Seq<String>, s: Seq<String>)
    requires
        is_permutation(r, s),
    ensures
        is_permutation(names_view(r), names_view(s)),
{
    let p = choose|p: Seq<int>| crate::sorting::permutation_witness(r, s, p);
    assert(crate::sorting::permutation_witness(names_view(r), names_view(s), p));
}

/// Listing over pages `pages[0..n]`, each full but the last: page `k` is asked for
/// as number `k + 1`, the listing stops after the last page, and the sorted names
/// are, in code point order, exactly the course names of all pages (no dot name,
/// not archived, not a template), each as often as it occurs there.
pub proof fn law_listing_collects_all_pages(
    states: Seq<RepoListing>,
    pages: Seq<Seq<RepositoryInfo>>,
    sorted: Seq<String>,
)
    requires
        pages.len() >= 1,
        states.len() == pages.len() + 1,
        states[0].page == 1,
        states[0].names@.len() == 0,
        forall|k: int| 0 <= k < pages.len() - 1 ==> (#[trigger] pages[k]).len() >= REPOS_PER_PAGE,
        pages.last().len() < REPOS_PER_PAGE,
        forall|k: int| 0 <= k < pages.len() ==> listing_step(#[trigger] states[k], pages[k], states[k + 1]),
        sorted_by_le(sorted),
        is_permutation(sorted, states.last().names@),
    ensures
        forall|k: int| 0 <= k < pages.len() ==> (#[trigger] states[k]).page == k + 1,
        states.last().page == pages.len(),
        names_view(states.last().names@) == pages_course_names(pages),
        is_permutation(names_view(sorted), pages_course_names(pages)),
        forall|i: int, j: int|
            0 <= i < j < sorted.len() ==> lex_le(#[trigger] sorted[i]@, #[trigger] sorted[j]@),
{
    lemma_listing_prefix(states, pages, pages.len() as int);
    assert(pages.take(pages.len() as int) =~= pages);
    assert(states.last() == states[pages.len() as int]);
    lemma_names_view_permutation(sorted, states.last().names@);
    assert forall|i: int, j: int| 0 <= i < j < sorted.len() implies lex_le(
        #[trigger] sorted[i]@,
        #[trigger] sorted[j]@,
    ) by {
        assert(sorted[i].le_spec(&sorted[j]));
    }
}

/// After the first `m` pages, page numbers and names are as the law says.
proof fn lemma_listing_prefix(states: Seq<RepoListing>, pages: Seq<Seq<RepositoryInfo>>, m: int)
    requires
        0 <= m <= pages.len(),
        pages.len() >= 1,
        states.len() == pages.len() + 1,
        states[0].page == 1,
        states[0].names@.len() == 0,
        forall|k: int| 0 <= k < pages.len() - 1 ==> (#[trigger] pages[k]).len() >= REPOS_PER_PAGE,
        pages.last().len() < REPOS_PER_PAGE,
        forall|k: int| 0 <= k < pages.len() ==> listing_step(#[trigger] states[k], pages[k], states[k + 1]),
    ensures
        forall|k: int| 0 <= k <= m && k < pages.len() ==> (#[trigger] states[k]).page == k + 1,
        m == pages.len() ==> states[m].page == m,
        names_view(states[m].names@) == pages_course_names(pages.take(m)),
    decreases m,
{
    if m == 0 {
        assert(names_view(states[0].names@) =~= Seq::<Seq<char>>::empty());
        assert(pages.take(0) =~= Seq::<Seq<RepositoryInfo>>::empty());
    } else {
        lemma_listing_prefix(states, pages, m - 1);
        assert(listing_step(states[m - 1], pages[m - 1], states[m]));
        assert(pages.take(m).drop_last() =~= pages.take(m - 1));
        assert(pages.take(m).last() == pages[m - 1]);
        assert(states[m - 1].page == m);
        if m == pages.len() {
            assert(pages[m - 1] == pages.last());
        }
    }
}

/// `api_base` without trailing slashes.
pub fn normalize_api_base(api_base: &str) -> (r: String)
    ensures
        r@ == trim_end_char(api_base@, '/'),
{
    let chars = to_chars(api_base);
    let t = trim_end_char_chars(&chars, '/');
    string_from_chars(&t)
}

/// The URL that lists the repositories of `org`.
pub fn org_repos_url(api_base: &str, org: &str) -> (r: String)
    ensures
        r@ == api_base@ + "/orgs/"@ + org@ + "/repos"@,
{
    let mut r = String::new();
    push_str(&mut r, api_base);
    push_str(&mut r, "/orgs/");
    push_str(&mut r, org);
    push_str(&mut r, "/repos");
    r
}

/// The value of the `Authorization` header for `token`.
pub fn bearer_value(token: &str) -> (r: String)
    ensures
        r@ == "Bearer "@ + token@,
{
    let mut r = String::new();
    push_str(&mut r, "Bearer ");
    push_str(&mut r, token);
    r
}

/// The contents API URL of `path` in `org/repo`, on `branch` when given.
pub fn contents_url(org: &str, repo: &str, path: &str, branch: Option<&str>) -> (r: String)
    ensures
        r@ == "https://api.github.com/repos/"@ + org@ + "/"@ + repo@ + "/contents/"@ + path@
            + match branch {
            Some(b) => "?ref="@ + b@,
            None => Seq::empty(),
        },
{
    let mut r = String::new();
    push_str(&mut r, "https://api.github.com/repos/");
    push_str(&mut r, org);
    push_str(&mut r, "/");
    push_str(&mut r, repo);
    push_str(&mut r, "/contents/");
    push_str(&mut r, path);
    match branch {
        Some(b) => {
            push_str(&mut r, "?ref=");
            push_str(&mut r, b);
        },
        None => {},
    }
    r
}

// ---------------------------------------------------------------------------
// File contents
// ---------------------------------------------------------------------------

/// The bytes that base64 (standard alphabet, with canonical padding) encodes in
/// `text`, or `None` when `text` is not such an encoding.
pub uninterp spec fn base64_standard_decoded(text: Seq<char>) -> Option<Seq<u8>>;

/// base64's `DecodeError`, the error of a failed decode, carried opaquely.
#[verifier::external_type_specification]
#[verifier::external_body]
pub struct ExDecodeError(base64::DecodeError);

/// Decodes `text` with base64's standard engine.
///
/// Trusted: calls `base64::prelude::BASE64_STANDARD.decode`; the contract only
/// names the result (`base64_standard_decoded`), a function of the text alone.
#[verifier::external_body]
fn base64_decode(text: &str) -> (r: Result<Vec<u8>, base64::DecodeError>)
    ensures
        match r {
            Ok(v) => base64_standard_decoded(text@) == Some(v@),
            Err(_) => base64_standard_decoded(text@) is None,
        },
{
    base64::prelude::BASE64_STANDARD.decode(text)
}

/// `String::from_utf8`, its error dropped.
///
/// Trusted: per std's documentation, succeeds exactly on valid UTF-8 and then
/// holds the characters that the bytes encode.
#[verifier::external_body]
fn string_from_utf8(bytes: Vec<u8>) -> (r: Option<String>)
    ensures
        r is Some <==> valid_utf8(bytes@),
        r matches Some(s) ==> s@ == decode_utf8(bytes@),
{
    String::from_utf8(bytes).ok()
}

/// `s` without the character `c`.
pub open spec fn without_char(s: Seq<char>, c: char) -> Seq<char>
    decreases s.len(),
{
    if s.len() == 0 {
        Seq::empty()
    } else if s.last() == c {
        without_char(s.drop_last(), c)
    } else {
        without_char(s.drop_last(), c).push(s.last())
    }
}

/// Why the content of a fetched file could not be read.
#[derive(Debug, Clone, Copy, PartialEq, Eq, Structural)]
pub enum ContentError {
    InvalidBase64,
    InvalidUtf8,
}

/// The text of a file as the contents API returns it: decoded from base64 (line
/// breaks removed) when so encoded, else as given.
pub open spec fn decoded_content(content: Seq<char>, encoding: Seq<char>) -> Result<
    Seq<char>,
    ContentError,
> {
    if encoding == "base64"@ {
        decoded_bytes_text(base64_standard_decoded(without_char(content, '\n')))
    } else {
        Ok(content)
    }
}

/// The text of a file from what base64 decoding gave: no bytes (the text was not
/// base64), bytes that are not UTF-8, or the characters that the bytes encode.
pub open spec fn decoded_bytes_text(decoded: Option<Seq<u8>>) -> Result<Seq<char>, ContentError> {
    match decoded {
        None => Err(ContentError::InvalidBase64),
        Some(bytes) => if valid_utf8(bytes) {
            Ok(decode_utf8(bytes))
        } else {
            Err(ContentError::InvalidUtf8)
        },
    }
}

/// The text of a file from the bytes that base64 decoding gave (`None` when the
/// content was not base64).
pub fn text_of_decoded_bytes(decoded: Option<Vec<u8>>) -> (r: Result<String, ContentError>)
    ensures
        match (r, decoded_bytes_text(
            match decoded {
                Some(v) => Some(v@),
                None => None,
            },
        )) {
            (Ok(s), Ok(t)) => s@ == t,
            (Err(e), Err(f)) => e == f,
            _ => false,
        },
{
    match decoded {
        None => Err(ContentError::InvalidBase64),
        Some(bytes) => match string_from_utf8(bytes) {
            Some(s) => Ok(s),
            None => Err(ContentError::InvalidUtf8),
        },
    }
}

/// Decodes the content of a fetched file.
pub fn decode_file_content(content: &str, encoding: &str) -> (r: Result<String, ContentError>)
    ensures
        match (r, decoded_content(content@, encoding@)) {
            (Ok(s), Ok(t)) => s@ == t,
            (Err(e), Err(f)) => e == f,
            _ => false,
        },
{
    if !str_eq(encoding, "base64") {
        let mut r = String::new();
        push_str(&mut r, content);
        return Ok(r);
    }
    let chars = to_chars(content);
    let mut kept: Vec<char> = Vec::new();
    for i in 0..chars.len()
        invariant
            chars@ == content@,
            kept@ == without_char(chars@.take(i as int), '\n'),
    {
        assert(chars@.take(i + 1).drop_last() =~= chars@.take(i as int));
        if chars[i] != '\n' {
            kept.push(chars[i]);
        }
    }
    assert(chars@.take(chars@.len() as int) =~= chars@);
    let text = string_from_chars(&kept);
    let decoded = match base64_decode(text.as_str()) {
        Ok(bytes) => Some(bytes),
        Err(_) => None,
    };
    text_of_decoded_bytes(decoded)
}

// ---------------------------------------------------------------------------
// Fetch results
// ---------------------------------------------------------------------------

/// Which files of a repository are on disk after fetching it.
#[derive(Debug, Clone, Copy, PartialEq, Eq, Structural)]
pub struct RepoFetchStatus {
    pub has_readme: bool,
    pub has_worktree: bool,
}

/// Counts over the outcomes of fetching repositories.
#[derive(Debug, Clone, Copy, PartialEq, Eq, Structural)]
pub struct FetchSummary {
    pub ready: usize,
    pub missing_readme: usize,
    pub missing_worktree: usize,
    pub failed: usize,
}

/// Number of outcomes for which `f` holds.
pub open spec fn count_outcomes(
    outcomes: Seq<Option<RepoFetchStatus>>,
    f: spec_fn(Option<RepoFetchStatus>) -> bool,
) -> nat
    decreases outcomes.len(),
{
    if outcomes.len() == 0 {
        0
    } else {
        count_outcomes(outcomes.drop_last(), f) + if f(outcomes.last()) {
            1nat
        } else {
            0nat
        }
    }
}

pub open spec fn is_ready(o: Option<RepoFetchStatus>) -> bool {
    o matches Some(s) && s.has_readme
}

pub open spec fn lacks_readme(o: Option<RepoFetchStatus>) -> bool {
    o matches Some(s) && !s.has_readme
}

pub open spec fn lacks_worktree(o: Option<RepoFetchStatus>) -> bool {
    o matches Some(s) && !s.has_worktree
}

pub open spec fn is_failure(o: Option<RepoFetchStatus>) -> bool {
    o is None
}

/// Every fetch outcome is counted exactly once as ready, as missing its README,
/// or as failed.
pub proof fn law_fetch_outcomes_partition(outcomes: Seq<Option<RepoFetchStatus>>)
    ensures
        count_outcomes(outcomes, |o| is_ready(o)) + count_outcomes(outcomes, |o| lacks_readme(o))
            + count_outcomes(outcomes, |o| is_failure(o)) == outcomes.len(),
    decreases outcomes.len(),
{
    if outcomes.len() > 0 {
        law_fetch_outcomes_partition(outcomes.drop_last());
    }
}

/// Only a repository that was fetched can miss its worktree: the repositories
/// without a worktree are at most those fetched, with or without a README.
pub proof fn law_missing_worktree_only_when_fetched(outcomes: Seq<Option<RepoFetchStatus>>)
    ensures
        count_outcomes(outcomes, |o| lacks_worktree(o)) <= count_outcomes(outcomes, |o| is_ready(o))
            + count_outcomes(outcomes, |o| lacks_readme(o)),
    decreases outcomes.len(),
{
    if outcomes.len() > 0 {
        law_missing_worktree_only_when_fetched(outcomes.drop_last());
    }
}

/// The token taken from `gh auth token` is never blank and has no white space
/// around it, and there is none when the command failed.
pub proof fn law_gh_token_is_trimmed(success: bool, stdout: Seq<u8>)
    ensures
        !success ==> gh_token(success, stdout) is None,
        gh_token(success, stdout) matches Some(t) ==> t.len() > 0 && trim(t) == t,
{
    lemma_trim_idempotent(decode_utf8(stdout));
}

/// `without_char` of joined text is the join of each part's.
proof fn lemma_without_char_concat(a: Seq<char>, b: Seq<char>, c: char)
    ensures
        without_char(a + b, c) == without_char(a, c) + without_char(b, c),
    decreases b.len(),
{
    if b.len() == 0 {
        assert(a + b =~= a);
        assert(without_char(a, c) + without_char(b, c) =~= without_char(a, c));
    } else {
        lemma_without_char_concat(a, b.drop_last(), c);
        assert((a + b).drop_last() =~= a + b.drop_last());
        assert((a + b).last() == b.last());
        assert(without_char(a + b, c) =~= without_char(a, c) + without_char(b, c));
    }
}

/// Line breaks in base64 content do not matter: content with a line break decodes
/// as it does without it.
pub proof fn law_base64_line_breaks_ignored(a: Seq<char>, b: Seq<char>)
    ensures
        decoded_content(a + seq!['\n'] + b, "base64"@) == decoded_content(a + b, "base64"@),
{
    lemma_without_char_concat(a + seq!['\n'], b, '\n');
    lemma_without_char_concat(a, seq!['\n'], '\n');
    lemma_without_char_concat(a, b, '\n');
    assert(seq!['\n'].drop_last() =~= Seq::<char>::empty());
    assert(seq!['\n'].last() == '\n');
    assert(without_char(Seq::<char>::empty(), '\n') =~= Seq::<char>::empty());
    assert(without_char(seq!['\n'], '\n') =~= Seq::<char>::empty());
    assert(without_char(a, '\n') + Seq::<char>::empty() =~= without_char(a, '\n'));
}

/// Counts the outcomes of fetching repositories (`None` for a fetch that failed):
/// with README, without README, without worktree, failed.
pub fn summarize_fetches(outcomes: &Vec<Option<RepoFetchStatus>>) -> (r: FetchSummary)
    ensures
        r.ready == count_outcomes(outcomes@, |o| is_ready(o)),
        r.missing_readme == count_outcomes(outcomes@, |o| lacks_readme(o)),
        r.missing_worktree == count_outcomes(outcomes@, |o| lacks_worktree(o)),
        r.failed == count_outcomes(outcomes@, |o| is_failure(o)),
{
    let mut s = FetchSummary { ready: 0, missing_readme: 0, missing_worktree: 0, failed: 0 };
    for i in 0..outcomes.len()
        invariant
            s.ready == count_outcomes(outcomes@.take(i as int), |o| is_ready(o)),
            s.missing_readme == count_outcomes(outcomes@.take(i as int), |o| lacks_readme(o)),
            s.missing_worktree == count_outcomes(outcomes@.take(i as int), |o| lacks_worktree(o)),
            s.failed == count_outcomes(outcomes@.take(i as int), |o| is_failure(o)),
            s.ready <= i && s.missing_readme <= i && s.missing_worktree <= i && s.failed <= i,
    {
        assert(outcomes@.take(i + 1).drop_last() =~= outcomes@.take(i as int));
        assert(outcomes@.take(i + 1).last() == outcomes@[i as int]);
        match outcomes[i] {
            Some(status) => {
                if status.has_readme {
                    s.ready = s.ready + 1;
                } else {
                    s.missing_readme = s.missing_readme + 1;
                }
                if !status.has_worktree {
                    s.missing_worktree = s.missing_worktree + 1;
                }
            },
            None => {
                s.failed = s.failed + 1;
            },
        }
    }
    assert(outcomes@.take(outcomes@.len() as int) =~= outcomes@);
    s
}

// ---------------------------------------------------------------------------
// Tokens
// ---------------------------------------------------------------------------

/// Exit status and standard output of a finished command.
#[derive(Debug)]
pub struct CommandOutput {
    pub success: bool,
    pub stdout: Vec<u8>,
}

/// The token that the environment gives: `PERSONAL_ACCESS_TOKEN` first, then
/// `GITHUB_TOKEN`.
pub fn token_from_env(personal: Option<String>, github: Option<String>) -> (r: Option<String>)
    ensures
        r == match personal {
            Some(t) => Some(t),
            None => github,
        },
{
    match personal {
        Some(t) => Some(t),
        None => github,
    }
}

/// The token that `gh auth token` printed: its output trimmed, when the command
/// succeeded, printed UTF-8 and the trimmed text is not empty.
pub open spec fn gh_token(success: bool, stdout: Seq<u8>) -> Option<Seq<char>> {
    if success && valid_utf8(stdout) && trim(decode_utf8(stdout)).len() > 0 {
        Some(trim(decode_utf8(stdout)))
    } else {
        None
    }
}

/// The token in the output of `gh auth token`.
pub fn token_from_gh_output(output: CommandOutput) -> (r: Option<String>)
    ensures
        match r {
            Some(t) => gh_token(output.success, output.stdout@) == Some(t@),
            None => gh_token(output.success, output.stdout@) is None,
        },
{
    if !output.success {
        return None;
    }
    match string_from_utf8(output.stdout) {
        Some(s) => {
            let chars = to_chars(s.as_str());
            let t = trim_chars(&chars);
            if t.len() > 0 {
                Some(string_from_chars(&t))
            } else {
                None
            }
        },
        None => None,
    }
}

} // verus!
