//! Mapping query files to their output paths.
//!
//! The walk over the directories is the caller's; it is told which patterns to use, and hands
//! over the files that it found.
use vstd::prelude::*;
use vstd::string::*;

use crate::errors::{Error, ErrorModel};
use crate::path::{
    comes_before, components, is_directory_part, is_single, law_name_and_extension,
    lemma_components_before, lemma_components_total, path_before, with_extension, with_other_extension,
};
use crate::sort::{arranged, law_order_is_unique, lemma_arranged, lemma_arranged_map, ranks, sort};
use crate::text::{debug_text, lower_case, opt_text, quoted, same, texts, to_lower};

verus! {

/// A query file, and the file that its result is written to.
#[derive(Debug)]
pub struct Query {
    pub source: String,
    pub output: String,
}

/// What a [`Query`] stands for.
pub struct QueryModel {
    pub source: Seq<char>,
    pub output: Seq<char>,
}

impl View for Query {
    type V = QueryModel;

    open spec fn view(&self) -> QueryModel {
        QueryModel { source: self.source@, output: self.output@ }
    }
}

/// What a list of queries stands for.
pub open spec fn query_models(queries: Seq<Query>) -> Seq<QueryModel> {
    Seq::new(queries.len(), |i: int| queries[i]@)
}

// ---------------------------------------------------------------------------------------
// What to look for
// ---------------------------------------------------------------------------------------
/// Directories never worth walking, whether or not a `.gitignore` says so.
pub open spec fn always_excluded() -> Seq<Seq<char>> {
    seq![
        "!**/node_modules/**"@,
        "!**/.git/**"@,
        "!**/target/**"@,
        "!**/dist/**"@,
        "!**/.next/**"@,
        "!**/.nuxt/**"@,
        "!**/.astro/**"@,
        "!**/.svelte-kit/**"@,
        "!**/vendor/**"@,
    ]
}

/// What is wrong with a pattern, if anything.
pub uninterp spec fn pattern_fault(pattern: Seq<char>) -> Option<Seq<char>>;

/// `ignore::overrides::OverrideBuilder::add`, on a builder without other patterns.
///
/// Claimed of it: whether a pattern is refused, and with which words, depends on the pattern
/// alone.
#[verifier::external_body]
fn check_pattern(pattern: &str) -> (r: Option<String>)
    ensures
        opt_text(r) == pattern_fault(pattern@),
{
    ignore::overrides::OverrideBuilder::new(".").add(pattern).err().map(|e| e.to_string())
}

/// What is said of a pattern that is refused.
pub open spec fn glob_message(glob: Seq<char>, why: Seq<char>) -> Seq<char> {
    "invalid glob "@ + debug_text(glob) + ": "@ + why
}

/// The error for a pattern that is refused.
pub fn glob_fault(glob: &str, why: &str) -> (r: Error)
    ensures
        r@ == ErrorModel::Config(glob_message(glob@, why@)),
{
    let mut message = "invalid glob ".to_owned();
    message.append(quoted(glob).as_str());
    message.append(": ");
    message.append(why);
    Error::Config(message)
}

/// The patterns of the files to look for: the one that was asked for, and what is never worth
/// walking.
pub fn patterns(glob: &str) -> (r: Result<Vec<String>, Error>)
    ensures
        match pattern_fault(glob@) {
            Some(why) => r matches Err(e) && e@ == ErrorModel::Config(glob_message(glob@, why)),
            None => r matches Ok(list) && texts(list@) == seq![glob@] + always_excluded(),
        },
{
    if let Some(why) = check_pattern(glob) {
        return Err(glob_fault(glob, why.as_str()));
    }
    let mut r: Vec<String> = Vec::new();
    r.push(glob.to_owned());
    r.push("!**/node_modules/**".to_owned());
    r.push("!**/.git/**".to_owned());
    r.push("!**/target/**".to_owned());
    r.push("!**/dist/**".to_owned());
    r.push("!**/.next/**".to_owned());
    r.push("!**/.nuxt/**".to_owned());
    r.push("!**/.astro/**".to_owned());
    r.push("!**/.svelte-kit/**".to_owned());
    r.push("!**/vendor/**".to_owned());
    assert(texts(r@) =~= seq![glob@] + always_excluded());
    Ok(r)
}

/// The error for a directory that cannot be walked.
pub fn walk_fault(root: &str, why: &str) -> (r: Error)
    ensures
        r@ == ErrorModel::Config("walking "@ + root@ + ": "@ + why@),
{
    let mut message = "walking ".to_owned();
    message.append(root);
    message.append(": ");
    message.append(why);
    Error::Config(message)
}

// ---------------------------------------------------------------------------------------
// What was found
// ---------------------------------------------------------------------------------------
/// Whether the first path comes after the second.
pub open spec fn path_after() -> spec_fn(Seq<char>, Seq<char>) -> bool {
    |a: Seq<char>, b: Seq<char>| path_before(b, a)
}

/// The file that the result of a query is written to: right next to it, with the same name.
pub open spec fn output_of(source: Seq<char>) -> Seq<char> {
    with_other_extension(source, "json"@)
}

/// The queries in files, in the order of their paths.
pub open spec fn queries_of(found: Seq<Seq<char>>) -> Seq<QueryModel> {
    arranged(found, path_after()).map_values(
        |source: Seq<char>| QueryModel { source, output: output_of(source) },
    )
}

/// The first query before query `j`, from query `i` on, that writes to the same file as it —
/// including through case-insensitive filesystems.
pub open spec fn rival(queries: Seq<QueryModel>, j: int, i: int) -> Option<int>
    decreases j - i,
{
    if i < 0 || i >= j {
        None
    } else if lower_case(queries[i].output) == lower_case(queries[j].output) {
        Some(i)
    } else {
        rival(queries, j, i + 1)
    }
}

/// The first two queries that write to the same file, the second of them from query `j` on.
pub open spec fn collision(queries: Seq<QueryModel>, j: int) -> Option<(int, int)>
    decreases queries.len() - j,
{
    if j < 0 || j >= queries.len() {
        None
    } else {
        match rival(queries, j, 0) {
            Some(i) => Some((i, j)),
            None => collision(queries, j + 1),
        }
    }
}

/// What is said of two queries that write to the same file.
pub open spec fn collision_message(first: QueryModel, second: QueryModel) -> Seq<char> {
    first.source + " and "@ + second.source + " both write to "@ + second.output
        + " — rename one of them"@
}

/// Two sources mapping to the same `.json` are refused.
pub fn check_collisions(queries: &Vec<Query>) -> (r: Result<(), Error>)
    ensures
        match collision(query_models(queries@), 0) {
            Some((i, j)) => r matches Err(e) && e@ == ErrorModel::Config(
                collision_message(query_models(queries@)[i], query_models(queries@)[j]),
            ),
            None => r is Ok,
        },
{
    let ghost models = query_models(queries@);
    let mut keys: Vec<String> = Vec::new();
    for j in 0..queries.len()
        invariant
            models == query_models(queries@),
            keys@.len() == j,
            forall|i: int|
                0 <= i < keys@.len() ==> (#[trigger] keys@[i])@ == lower_case(models[i].output),
            collision(models, 0) == collision(models, j as int),
    {
        let key = to_lower(queries[j].output.as_str());
        assert(models[j as int] == queries@[j as int]@);
        for i in 0..j
            invariant
                models == query_models(queries@),
                j < queries@.len(),
                keys@.len() == j,
                forall|k: int|
                    0 <= k < keys@.len() ==> (#[trigger] keys@[k])@ == lower_case(models[k].output),
                key@ == lower_case(models[j as int].output),
                collision(models, 0) == collision(models, j as int),
                rival(models, j as int, 0) == rival(models, j as int, i as int),
        {
            assert(models[i as int] == queries@[i as int]@);
            if same(keys[i].as_str(), key.as_str()) {
                let mut message = queries[i].source.clone();
                message.append(" and ");
                message.append(queries[j].source.as_str());
                message.append(" both write to ");
                message.append(queries[j].output.as_str());
                message.append(" — rename one of them");
                assert(models[j as int] == queries@[j as int]@);
                return Err(Error::Config(message));
            }
        }
        keys.push(key);
    }
    Ok(())
}

/// Whether the first path comes after the second.
fn comes_after(a: &String, b: &String) -> (y: bool)
    ensures
        y == path_after()(a@, b@),
{
    comes_before(b.as_str(), a.as_str())
}

/// The queries in the files that were found, sorted, with output collisions rejected up front.
///
/// Deterministic order: with fail-fast, an unsorted walk would report a different error on every
/// run when several files are broken.
pub fn find(found: Vec<String>) -> (r: Result<Vec<Query>, Error>)
    ensures
        ({
            let queries = queries_of(texts(found@));
            match collision(queries, 0) {
                Some((i, j)) => r matches Err(e) && e@ == ErrorModel::Config(
                    collision_message(queries[i], queries[j]),
                ),
                None => r matches Ok(list) && query_models(list@) == queries,
            }
        }),
{
    let ghost after = |a: String, b: String| path_after()(a@, b@);
    let ghost all = queries_of(texts(found@));
    let sorted = sort(found, comes_after, Ghost(after));
    proof {
        lemma_arranged_map(found@, |s: String| s@, after, path_after());
        assert(found@.map_values(|s: String| s@) =~= texts(found@));
        assert(sorted@.map_values(|s: String| s@) =~= texts(sorted@));
    }
    let mut queries: Vec<Query> = Vec::new();
    for source in it: sorted
        invariant
            it.seq() == sorted@,
            queries@.len() == it.index(),
            forall|j: int|
                0 <= j < queries@.len() ==> (#[trigger] queries@[j])@ == (QueryModel {
                    source: sorted@[j]@,
                    output: output_of(sorted@[j]@),
                }),
    {
        assert(source == sorted@[it.index()]);
        let output = with_extension(source.as_str(), "json");
        queries.push(Query { source, output });
    }
    assert(query_models(queries@) =~= all);
    match check_collisions(&queries) {
        Ok(()) => Ok(queries),
        Err(e) => Err(e),
    }
}

// ---------------------------------------------------------------------------------------
// Laws
// ---------------------------------------------------------------------------------------
/// No two queries that are let through write to the same file, not even where upper and lower
/// case make no difference.
pub proof fn law_outputs_are_distinct(queries: Seq<QueryModel>, i: int, j: int, k: int)
    requires
        collision(queries, k) is None,
        0 <= k <= j,
        0 <= i < j < queries.len(),
    ensures
        lower_case(queries[i].output) != lower_case(queries[j].output),
        queries[i].output != queries[j].output,
    decreases j - k,
{
    if k < j {
        law_outputs_are_distinct(queries, i, j, k + 1);
    } else {
        lemma_no_rival(queries, j, i, 0);
    }
}

proof fn lemma_no_rival(queries: Seq<QueryModel>, j: int, i: int, k: int)
    requires
        rival(queries, j, k) is None,
        0 <= k <= i < j,
    ensures
        lower_case(queries[i].output) != lower_case(queries[j].output),
    decreases i - k,
{
    if k < i {
        lemma_no_rival(queries, j, i, k + 1);
    }
}

/// The queries do not depend on the order of the walk, as long as each file is named in one way
/// only.
pub proof fn law_order_of_the_walk_is_irrelevant(x: Seq<Seq<char>>, y: Seq<Seq<char>>)
    requires
        x.to_multiset() == y.to_multiset(),
        forall|i: int, j: int|
            0 <= i < x.len() && 0 <= j < x.len() && components(#[trigger] x[i]) == components(
                #[trigger] x[j],
            ) ==> x[i] == x[j],
    ensures
        queries_of(x) == queries_of(y),
{
    let after = path_after();
    lemma_paths_rank();
    assert forall|i: int, j: int|
        0 <= i < x.len() && 0 <= j < x.len() && x[i] != x[j] implies #[trigger] after(x[i], x[j])
        || after(x[j], x[i]) by {
        lemma_components_total(components(x[i]), components(x[j]));
    }
    law_order_is_unique(x, y, after);
}

/// The order of paths is one that things can be sorted by.
proof fn lemma_paths_rank()
    ensures
        ranks(path_after()),
{
    let after = path_after();
    assert(ranks(after)) by {
        assert forall|a: Seq<char>, b: Seq<char>| #[trigger] after(a, b) implies !after(b, a) by {
            lemma_components_before(components(b), components(a), components(b));
        }
        assert forall|a: Seq<char>, b: Seq<char>, c: Seq<char>|
            #![trigger after(a, b), after(b, c)]
            after(a, c) implies after(a, b) || after(b, c) by {
            lemma_components_before(components(c), components(b), components(a));
        }
    }
}

/// Where no two outputs are alike as whole paths, upper and lower case aside, nothing is refused.
pub proof fn law_only_real_collisions_are_refused(queries: Seq<QueryModel>)
    requires
        forall|i: int, j: int|
            0 <= i < j < queries.len() ==> lower_case((#[trigger] queries[i]).output) != lower_case(
                (#[trigger] queries[j]).output,
            ),
    ensures
        collision(queries, 0) is None,
{
    lemma_collision(queries, 0);
}

/// The two queries that are named do collide, and there is no collision among those before the
/// second.
pub proof fn law_refused_queries_collide(queries: Seq<QueryModel>)
    ensures
        collision(queries, 0) matches Some((i, j)) ==> {
            &&& 0 <= i < j < queries.len()
            &&& lower_case(queries[i].output) == lower_case(queries[j].output)
            &&& forall|k: int|
                0 <= k < i ==> lower_case((#[trigger] queries[k]).output) != lower_case(
                    queries[j].output,
                )
            &&& forall|k: int, l: int|
                0 <= k < l < j ==> lower_case((#[trigger] queries[k]).output) != lower_case(
                    (#[trigger] queries[l]).output,
                )
        },
{
    lemma_collision(queries, 0);
}

proof fn lemma_collision(queries: Seq<QueryModel>, from: int)
    requires
        0 <= from,
        forall|k: int, l: int|
            0 <= k < l < from && l < queries.len() ==> lower_case((#[trigger] queries[k]).output)
                != lower_case((#[trigger] queries[l]).output),
    ensures
        match collision(queries, from) {
            Some((i, j)) => {
                &&& 0 <= i < j < queries.len()
                &&& lower_case(queries[i].output) == lower_case(queries[j].output)
                &&& forall|k: int|
                    0 <= k < i ==> lower_case((#[trigger] queries[k]).output) != lower_case(
                        queries[j].output,
                    )
                &&& forall|k: int, l: int|
                    0 <= k < l < j ==> lower_case((#[trigger] queries[k]).output) != lower_case(
                        (#[trigger] queries[l]).output,
                    )
            },
            None => true,
        },
        (forall|i: int, j: int|
            0 <= i < j < queries.len() ==> lower_case((#[trigger] queries[i]).output) != lower_case(
                (#[trigger] queries[j]).output,
            )) ==> collision(queries, from) is None,
    decreases queries.len() - from,
{
    if from < queries.len() {
        lemma_rival(queries, from, 0);
        if rival(queries, from, 0) is None {
            lemma_collision(queries, from + 1);
        }
    }
}

proof fn lemma_rival(queries: Seq<QueryModel>, j: int, from: int)
    requires
        0 <= from <= j < queries.len(),
    ensures
        match rival(queries, j, from) {
            Some(i) => {
                &&& from <= i < j
                &&& lower_case(queries[i].output) == lower_case(queries[j].output)
                &&& forall|k: int|
                    from <= k < i ==> lower_case((#[trigger] queries[k]).output) != lower_case(
                        queries[j].output,
                    )
            },
            None => forall|k: int|
                from <= k < j ==> lower_case((#[trigger] queries[k]).output) != lower_case(
                    queries[j].output,
                ),
        },
    decreases j - from,
{
    if from < j {
        lemma_rival(queries, j, from + 1);
    }
}

/// There is one query for each file that was found and none besides, in the order of the paths.
pub proof fn law_one_query_for_each_file(found: Seq<Seq<char>>)
    ensures
        queries_of(found).len() == found.len(),
        queries_of(found).map_values(|q: QueryModel| q.source).to_multiset() == found.to_multiset(),
        forall|i: int, j: int|
            0 <= i < j < found.len() ==> !path_before(
                (#[trigger] queries_of(found)[j]).source,
                (#[trigger] queries_of(found)[i]).source,
            ),
{
    let after = path_after();
    lemma_paths_rank();
    lemma_arranged(found, after);
    let sorted = arranged(found, after);
    assert(queries_of(found).map_values(|q: QueryModel| q.source) =~= sorted);
    assert forall|i: int, j: int| 0 <= i < j < found.len() implies !path_before(
        (#[trigger] queries_of(found)[j]).source,
        (#[trigger] queries_of(found)[i]).source,
    ) by {
        assert(!after(sorted[i], sorted[j]));
    }
}

/// The result of a query is written right next to it: in its directory, under its name, with
/// `json` for an extension.
pub proof fn law_output_lies_next_to_the_query(
    found: Seq<Seq<char>>,
    i: int,
    dir: Seq<char>,
    stem: Seq<char>,
    extension: Seq<char>,
)
    requires
        0 <= i < queries_of(found).len(),
        queries_of(found)[i].source == dir + stem + seq!['.'] + extension,
        is_directory_part(dir),
        stem.len() > 0,
        is_single(stem),
        extension.len() > 0,
        is_single(extension),
        forall|k: int| 0 <= k < extension.len() ==> #[trigger] extension[k] != '.',
    ensures
        queries_of(found)[i].output == dir + stem + seq!['.', 'j', 's', 'o', 'n'],
{
    law_name_and_extension(dir, stem, extension, "json"@);
    reveal_strlit("json");
    assert(dir + stem + seq!['.'] + "json"@ =~= dir + stem + seq!['.', 'j', 's', 'o', 'n']);
}

/// Directories of dependencies, of version control and of builds are never walked.
pub proof fn law_excluded_directories(name: Seq<char>)
    requires
        seq![
            "node_modules"@,
            ".git"@,
            "target"@,
            "dist"@,
            ".next"@,
            ".nuxt"@,
            ".astro"@,
            ".svelte-kit"@,
            "vendor"@,
        ].contains(name),
    ensures
        always_excluded().contains(seq!['!', '*', '*', '/'] + name + seq!['/', '*', '*']),
        always_excluded().len() == 9,
{
    reveal_strlit("node_modules");
    reveal_strlit(".git");
    reveal_strlit("target");
    reveal_strlit("dist");
    reveal_strlit(".next");
    reveal_strlit(".nuxt");
    reveal_strlit(".astro");
    reveal_strlit(".svelte-kit");
    reveal_strlit("vendor");
    reveal_strlit("!**/node_modules/**");
    reveal_strlit("!**/.git/**");
    reveal_strlit("!**/target/**");
    reveal_strlit("!**/dist/**");
    reveal_strlit("!**/.next/**");
    reveal_strlit("!**/.nuxt/**");
    reveal_strlit("!**/.astro/**");
    reveal_strlit("!**/.svelte-kit/**");
    reveal_strlit("!**/vendor/**");
    let all = always_excluded();
    let names = seq![
        "node_modules"@,
        ".git"@,
        "target"@,
        "dist"@,
        ".next"@,
        ".nuxt"@,
        ".astro"@,
        ".svelte-kit"@,
        "vendor"@,
    ];
    let open = seq!['!', '*', '*', '/'];
    let close = seq!['/', '*', '*'];
    assert(all[0] =~= open + names[0] + close);
    assert(all[1] =~= open + names[1] + close);
    assert(all[2] =~= open + names[2] + close);
    assert(all[3] =~= open + names[3] + close);
    assert(all[4] =~= open + names[4] + close);
    assert(all[5] =~= open + names[5] + close);
    assert(all[6] =~= open + names[6] + close);
    assert(all[7] =~= open + names[7] + close);
    assert(all[8] =~= open + names[8] + close);
    let i = choose|i: int| 0 <= i < names.len() && names[i] == name;
    assert(all[i] == open + name + close);
}

} // verus!
