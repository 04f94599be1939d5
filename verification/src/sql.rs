//! The SQL shaver: lineage from `CREATE TABLE .. AS`, `CREATE VIEW .. AS`,
//! `INSERT INTO .. SELECT` and bare `SELECT` statements.
use vstd::prelude::*;

use sqlparser::ast::{ObjectName, Query, SetExpr, Statement, TableFactor, TableWithJoins};
use sqlparser::dialect::dialect_from_str;
use sqlparser::keywords::Keyword;
use sqlparser::parser::Parser;
use sqlparser::tokenizer::{Token, Tokenizer};
use std::path::PathBuf;

use crate::graph::{node_ids, Edge, Node};
use crate::interlace::edge_pairs;
use crate::strand::Strand;
use crate::text::{join_spec, push_char, push_str, string_of, string_views};

verus! {

/// An identifier as written: its text and whether it was quoted.
pub struct SqlIdent {
    pub value: String,
    pub quoted: bool,
}

/// A statement, keeping only what lineage reads.
#[allow(inconsistent_fields)]
pub enum SqlStatement {
    CreateTable { name: Vec<SqlIdent>, query: Option<Box<SqlQuery>> },
    CreateView { name: Vec<SqlIdent>, query: Box<SqlQuery> },
    Insert { table: Vec<SqlIdent>, source: Option<Box<SqlQuery>> },
    Query(Box<SqlQuery>),
    Other,
}

/// A query: its `WITH` clause and its body.
pub struct SqlQuery {
    pub ctes: Vec<SqlCte>,
    pub body: SqlSetExpr,
}

/// One common table expression: `alias AS (query)`.
pub struct SqlCte {
    pub alias: String,
    pub query: SqlQuery,
}

/// The body of a query.
pub enum SqlSetExpr {
    /// A `SELECT` with its `FROM` list.
    Select(Vec<SqlTableWithJoins>),
    /// `UNION`, `EXCEPT` or `INTERSECT` of two bodies.
    SetOperation(Box<SqlSetExpr>, Box<SqlSetExpr>),
    /// A parenthesised query.
    Query(Box<SqlQuery>),
    Other,
}

/// One `FROM` item and the items joined to it.
pub struct SqlTableWithJoins {
    pub relation: SqlTableFactor,
    pub joins: Vec<SqlTableFactor>,
}

/// A table reference.
pub enum SqlTableFactor {
    /// A named table (possibly a CTE).
    Table(Vec<SqlIdent>),
    /// A subquery in `FROM`.
    Derived(Box<SqlQuery>),
    /// A parenthesised join.
    NestedJoin(Box<SqlTableWithJoins>),
    Other,
}

/// The Unicode lower-case mapping of `str::to_lowercase`.
pub uninterp spec fn unicode_lowercase(s: Seq<char>) -> Seq<char>;

/// Every character is ASCII.
pub open spec fn all_ascii(s: Seq<char>) -> bool {
    forall|i: int| 0 <= i < s.len() ==> (#[trigger] s[i] as u32) < 128
}

/// ASCII lower-casing: `A`-`Z` become `a`-`z`, every other character stays.
pub open spec fn ascii_lower(s: Seq<char>) -> Seq<char> {
    s.map_values(|c: char| if 'A' <= c <= 'Z' { ((c as u32) + 32) as char } else { c })
}

/// `str::to_lowercase`: the Unicode lower-case mapping, named by
/// `unicode_lowercase`. On ASCII text it is ASCII lower-casing, as the
/// documentation of `str::to_lowercase` and the Unicode tables give.
#[verifier::external_body]
fn to_lowercase(s: &str) -> (r: String)
    ensures
        r@ == unicode_lowercase(s@),
        all_ascii(s@) ==> r@ == ascii_lower(s@),
{
    s.to_lowercase()
}

/// A quoted identifier keeps its case; an unquoted one is lower-cased.
pub open spec fn ident_id_spec(i: SqlIdent) -> Seq<char> {
    if i.quoted {
        i.value@
    } else {
        unicode_lowercase(i.value@)
    }
}

/// The canonical id of a (possibly qualified) name: its parts joined by `.`.
pub open spec fn name_id_spec(parts: Seq<SqlIdent>) -> Seq<char> {
    join_spec(parts.map_values(|i: SqlIdent| ident_id_spec(i)), seq!['.'])
}

/// The CTEs in scope: alias (lower-cased) and the real tables behind it.
/// A later entry for the same alias shadows an earlier one.
pub type CteEnv = Seq<(Seq<char>, Seq<Seq<char>>)>;

/// The tables behind `key`, from its last entry.
pub open spec fn env_lookup_spec(env: CteEnv, key: Seq<char>) -> Option<Seq<Seq<char>>>
    decreases env.len(),
{
    if env.len() == 0 {
        None
    } else if env.last().0 == key {
        Some(env.last().1)
    } else {
        env_lookup_spec(env.drop_last(), key)
    }
}

/// The upstream tables of a named table: what a CTE of that name stands
/// for, or the table itself.
pub open spec fn table_sources_spec(parts: Seq<SqlIdent>, env: CteEnv) -> Seq<Seq<char>> {
    let id = name_id_spec(parts);
    match env_lookup_spec(env, unicode_lowercase(id)) {
        Some(s) => s,
        None => seq![id],
    }
}

/// The upstream tables of a query: those of its body. (A `WITH` clause of a
/// nested query is not resolved.)
pub open spec fn query_sources_spec(q: SqlQuery, env: CteEnv) -> Seq<Seq<char>>
    decreases q,
{
    setexpr_sources_spec(q.body, env)
}

pub open spec fn setexpr_sources_spec(e: SqlSetExpr, env: CteEnv) -> Seq<Seq<char>>
    decreases e,
{
    match e {
        SqlSetExpr::Select(from) => twjs_sources_spec(from@, env),
        SqlSetExpr::SetOperation(l, r) => setexpr_sources_spec(*l, env) + setexpr_sources_spec(
            *r,
            env,
        ),
        SqlSetExpr::Query(q) => query_sources_spec(*q, env),
        SqlSetExpr::Other => Seq::empty(),
    }
}

pub open spec fn twjs_sources_spec(ts: Seq<SqlTableWithJoins>, env: CteEnv) -> Seq<Seq<char>>
    decreases ts,
{
    if ts.len() == 0 {
        Seq::empty()
    } else {
        twjs_sources_spec(ts.drop_last(), env) + twj_sources_spec(ts.last(), env)
    }
}

pub open spec fn twj_sources_spec(t: SqlTableWithJoins, env: CteEnv) -> Seq<Seq<char>>
    decreases t,
{
    factor_sources_spec(t.relation, env) + factors_sources_spec(t.joins@, env)
}

pub open spec fn factors_sources_spec(fs: Seq<SqlTableFactor>, env: CteEnv) -> Seq<Seq<char>>
    decreases fs,
{
    if fs.len() == 0 {
        Seq::empty()
    } else {
        factors_sources_spec(fs.drop_last(), env) + factor_sources_spec(fs.last(), env)
    }
}

pub open spec fn factor_sources_spec(f: SqlTableFactor, env: CteEnv) -> Seq<Seq<char>>
    decreases f,
{
    match f {
        SqlTableFactor::Table(parts) => table_sources_spec(parts@, env),
        SqlTableFactor::Derived(q) => query_sources_spec(*q, env),
        SqlTableFactor::NestedJoin(t) => twj_sources_spec(*t, env),
        SqlTableFactor::Other => Seq::empty(),
    }
}


// ── Laws of CTE resolution ───────────────────────────────────────────────────

/// `s` names no CTE in scope, or is one of the tables some CTE stands for.
pub open spec fn resolved_in(env: CteEnv, s: Seq<char>) -> bool {
    ||| env_lookup_spec(env, unicode_lowercase(s)) is None
    ||| exists|k: int, j: int| 0 <= k < env.len() && 0 <= j < env[k].1.len() && #[trigger] env[k].1[j] == s
}

pub open spec fn all_resolved(env: CteEnv, ss: Seq<Seq<char>>) -> bool {
    forall|i: int| 0 <= i < ss.len() ==> #[trigger] resolved_in(env, ss[i])
}

proof fn lemma_lookup_found(env: CteEnv, key: Seq<char>)
    ensures
        env_lookup_spec(env, key) matches Some(v) ==> exists|k: int| 0 <= k < env.len() && #[trigger] env[k].1 == v,
    decreases env.len(),
{
    if env.len() > 0 {
        lemma_lookup_found(env.drop_last(), key);
        if env.last().0 != key {
            if env_lookup_spec(env, key) is Some {
                let v = env_lookup_spec(env, key)->0;
                let k = choose|k: int| 0 <= k < env.drop_last().len() && #[trigger] env.drop_last()[k].1 == v;
                assert(env[k].1 == v);
            }
        } else {
            assert(env[env.len() - 1].1 == env.last().1);
        }
    }
}

proof fn lemma_all_resolved_concat(env: CteEnv, a: Seq<Seq<char>>, b: Seq<Seq<char>>)
    requires
        all_resolved(env, a),
        all_resolved(env, b),
    ensures
        all_resolved(env, a + b),
{
    assert forall|i: int| 0 <= i < (a + b).len() implies #[trigger] resolved_in(env, (a + b)[i]) by {
        if i < a.len() {
            assert((a + b)[i] == a[i]);
        } else {
            assert((a + b)[i] == b[i - a.len()]);
        }
    }
}

proof fn lemma_table_resolved(parts: Seq<SqlIdent>, env: CteEnv)
    ensures
        all_resolved(env, table_sources_spec(parts, env)),
{
    let id = name_id_spec(parts);
    let key = unicode_lowercase(id);
    lemma_lookup_found(env, key);
    match env_lookup_spec(env, key) {
        Some(v) => {
            let k = choose|k: int| 0 <= k < env.len() && #[trigger] env[k].1 == v;
            assert forall|i: int| 0 <= i < v.len() implies #[trigger] resolved_in(env, v[i]) by {
                assert(env[k].1[i] == v[i]);
            }
        },
        None => {
            assert(resolved_in(env, seq![id][0]));
        },
    }
}

proof fn lemma_query_resolved(q: SqlQuery, env: CteEnv)
    ensures
        all_resolved(env, query_sources_spec(q, env)),
    decreases q,
{
    lemma_setexpr_resolved(q.body, env);
}

proof fn lemma_setexpr_resolved(e: SqlSetExpr, env: CteEnv)
    ensures
        all_resolved(env, setexpr_sources_spec(e, env)),
    decreases e,
{
    match e {
        SqlSetExpr::Select(from) => lemma_twjs_resolved(from@, env),
        SqlSetExpr::SetOperation(l, r) => {
            lemma_setexpr_resolved(*l, env);
            lemma_setexpr_resolved(*r, env);
            lemma_all_resolved_concat(env, setexpr_sources_spec(*l, env), setexpr_sources_spec(*r, env));
        },
        SqlSetExpr::Query(q) => lemma_query_resolved(*q, env),
        SqlSetExpr::Other => {},
    }
}

proof fn lemma_twjs_resolved(ts: Seq<SqlTableWithJoins>, env: CteEnv)
    ensures
        all_resolved(env, twjs_sources_spec(ts, env)),
    decreases ts,
{
    if ts.len() > 0 {
        lemma_twjs_resolved(ts.drop_last(), env);
        lemma_twj_resolved(ts.last(), env);
        lemma_all_resolved_concat(env, twjs_sources_spec(ts.drop_last(), env), twj_sources_spec(ts.last(), env));
    }
}

proof fn lemma_twj_resolved(t: SqlTableWithJoins, env: CteEnv)
    ensures
        all_resolved(env, twj_sources_spec(t, env)),
    decreases t,
{
    lemma_factor_resolved(t.relation, env);
    lemma_factors_resolved(t.joins@, env);
    lemma_all_resolved_concat(env, factor_sources_spec(t.relation, env), factors_sources_spec(t.joins@, env));
}

proof fn lemma_factors_resolved(fs: Seq<SqlTableFactor>, env: CteEnv)
    ensures
        all_resolved(env, factors_sources_spec(fs, env)),
    decreases fs,
{
    if fs.len() > 0 {
        lemma_factors_resolved(fs.drop_last(), env);
        lemma_factor_resolved(fs.last(), env);
        lemma_all_resolved_concat(env, factors_sources_spec(fs.drop_last(), env), factor_sources_spec(fs.last(), env));
    }
}

proof fn lemma_factor_resolved(f: SqlTableFactor, env: CteEnv)
    ensures
        all_resolved(env, factor_sources_spec(f, env)),
    decreases f,
{
    match f {
        SqlTableFactor::Table(parts) => lemma_table_resolved(parts@, env),
        SqlTableFactor::Derived(q) => lemma_query_resolved(*q, env),
        SqlTableFactor::NestedJoin(t) => lemma_twj_resolved(*t, env),
        SqlTableFactor::Other => {},
    }
}

/// CTE names never become lineage: when the bodies of a query's CTEs read
/// only real tables (none names a CTE of the same `WITH` clause), no
/// upstream table of the query names one of its CTEs, in any case.
pub proof fn ctes_never_reach_lineage(q: SqlQuery)
    requires
        forall|k: int, j: int|
            0 <= k < cte_env_spec(q.ctes@).len() && 0 <= j < cte_env_spec(q.ctes@)[k].1.len()
                ==> env_lookup_spec(
                cte_env_spec(q.ctes@),
                unicode_lowercase(#[trigger] cte_env_spec(q.ctes@)[k].1[j]),
            ) is None,
    ensures
        forall|i: int|
            0 <= i < lineage_sources_spec(q).len() ==> env_lookup_spec(
                cte_env_spec(q.ctes@),
                unicode_lowercase(#[trigger] lineage_sources_spec(q)[i]),
            ) is None,
{
    let env = cte_env_spec(q.ctes@);
    lemma_query_resolved(q, env);
    assert forall|i: int| 0 <= i < lineage_sources_spec(q).len() implies env_lookup_spec(
        env,
        unicode_lowercase(#[trigger] lineage_sources_spec(q)[i]),
    ) is None by {
        let s = lineage_sources_spec(q)[i];
        assert(resolved_in(env, s));
        if env_lookup_spec(env, unicode_lowercase(s)) is Some {
            let (k, j) = choose|k: int, j: int| 0 <= k < env.len() && 0 <= j < env[k].1.len() && #[trigger] env[k].1[j] == s;
            assert(env[k].1[j] == s);
        }
    }
}

proof fn lemma_lookup_none(env: CteEnv, key: Seq<char>)
    requires
        env_lookup_spec(env, key) is None,
    ensures
        forall|k: int| 0 <= k < env.len() ==> #[trigger] env[k].0 != key,
    decreases env.len(),
{
    if env.len() > 0 {
        lemma_lookup_none(env.drop_last(), key);
        assert forall|k: int| 0 <= k < env.len() implies #[trigger] env[k].0 != key by {
            if k < env.len() - 1 {
                assert(env.drop_last()[k] == env[k]);
            }
        }
    }
}

/// The scope of a `WITH` clause has one entry per CTE, in order, keyed by
/// the CTE's alias lower-cased (references to it are lower-cased too).
pub proof fn cte_scope_keys_are_lowercased_aliases(ctes: Seq<SqlCte>)
    ensures
        cte_env_spec(ctes).len() == ctes.len(),
        forall|i: int|
            0 <= i < ctes.len() ==> (#[trigger] cte_env_spec(ctes)[i]).0 == unicode_lowercase(
                ctes[i].alias@,
            ),
    decreases ctes.len(),
{
    if ctes.len() > 0 {
        cte_scope_keys_are_lowercased_aliases(ctes.drop_last());
        assert forall|i: int| 0 <= i < ctes.len() implies (#[trigger] cte_env_spec(ctes)[i]).0
            == unicode_lowercase(ctes[i].alias@) by {
            if i < ctes.len() - 1 {
                assert(ctes.drop_last()[i] == ctes[i]);
            }
        }
    }
}

/// A CTE's alias, in whatever case it is written, never becomes an upstream
/// table of its query: when no table that a CTE body reads is named like
/// one of the query's CTEs, no upstream table is, case-insensitively.
pub proof fn cte_aliases_never_reach_lineage(q: SqlQuery)
    requires
        forall|k: int, j: int, m: int|
            0 <= k < cte_env_spec(q.ctes@).len() && 0 <= j < cte_env_spec(q.ctes@)[k].1.len() && 0
                <= m < q.ctes@.len() ==> unicode_lowercase(#[trigger] cte_env_spec(q.ctes@)[k].1[j])
                != unicode_lowercase(#[trigger] q.ctes@[m].alias@),
    ensures
        forall|i: int, m: int|
            0 <= i < lineage_sources_spec(q).len() && 0 <= m < q.ctes@.len() ==> unicode_lowercase(
                #[trigger] lineage_sources_spec(q)[i],
            ) != unicode_lowercase(#[trigger] q.ctes@[m].alias@),
{
    let env = cte_env_spec(q.ctes@);
    cte_scope_keys_are_lowercased_aliases(q.ctes@);
    lemma_query_resolved(q, env);
    assert forall|i: int, m: int|
        0 <= i < lineage_sources_spec(q).len() && 0 <= m < q.ctes@.len() implies unicode_lowercase(
            #[trigger] lineage_sources_spec(q)[i],
        ) != unicode_lowercase(#[trigger] q.ctes@[m].alias@) by {
        let s = lineage_sources_spec(q)[i];
        assert(resolved_in(env, s));
        if env_lookup_spec(env, unicode_lowercase(s)) is None {
            lemma_lookup_none(env, unicode_lowercase(s));
            assert(env[m].0 != unicode_lowercase(s));
        } else {
            let (k, j) = choose|k: int, j: int|
                0 <= k < env.len() && 0 <= j < env[k].1.len() && #[trigger] env[k].1[j] == s;
            assert(env[k].1[j] == s);
        }
    }
}

// ── Tables a query names ─────────────────────────────────────────────────────

/// The query names the table `id` in a `FROM` clause somewhere in its
/// body: in a set operation, a parenthesised query, a join or a subquery.
pub open spec fn query_reads(q: SqlQuery, id: Seq<char>) -> bool
    decreases q,
{
    setexpr_reads(q.body, id)
}

pub open spec fn setexpr_reads(e: SqlSetExpr, id: Seq<char>) -> bool
    decreases e,
{
    match e {
        SqlSetExpr::Select(from) => twjs_reads(from@, id),
        SqlSetExpr::SetOperation(l, r) => setexpr_reads(*l, id) || setexpr_reads(*r, id),
        SqlSetExpr::Query(q) => query_reads(*q, id),
        SqlSetExpr::Other => false,
    }
}

pub open spec fn twjs_reads(ts: Seq<SqlTableWithJoins>, id: Seq<char>) -> bool
    decreases ts,
{
    if ts.len() == 0 {
        false
    } else {
        twjs_reads(ts.drop_last(), id) || twj_reads(ts.last(), id)
    }
}

pub open spec fn twj_reads(t: SqlTableWithJoins, id: Seq<char>) -> bool
    decreases t,
{
    factor_reads(t.relation, id) || factors_reads(t.joins@, id)
}

pub open spec fn factors_reads(fs: Seq<SqlTableFactor>, id: Seq<char>) -> bool
    decreases fs,
{
    if fs.len() == 0 {
        false
    } else {
        factors_reads(fs.drop_last(), id) || factor_reads(fs.last(), id)
    }
}

pub open spec fn factor_reads(f: SqlTableFactor, id: Seq<char>) -> bool
    decreases f,
{
    match f {
        SqlTableFactor::Table(parts) => name_id_spec(parts@) == id,
        SqlTableFactor::Derived(q) => query_reads(*q, id),
        SqlTableFactor::NestedJoin(t) => twj_reads(*t, id),
        SqlTableFactor::Other => false,
    }
}

proof fn lemma_contains_concat(a: Seq<Seq<char>>, b: Seq<Seq<char>>, x: Seq<char>)
    requires
        a.contains(x) || b.contains(x),
    ensures
        (a + b).contains(x),
{
    if a.contains(x) {
        let k = choose|k: int| 0 <= k < a.len() && a[k] == x;
        assert((a + b)[k] == x);
    } else {
        let k = choose|k: int| 0 <= k < b.len() && b[k] == x;
        assert((a + b)[a.len() + k] == x);
    }
}

proof fn lemma_query_reaches(q: SqlQuery, env: CteEnv, id: Seq<char>)
    requires
        query_reads(q, id),
        env_lookup_spec(env, unicode_lowercase(id)) is None,
    ensures
        query_sources_spec(q, env).contains(id),
    decreases q,
{
    lemma_setexpr_reaches(q.body, env, id);
}

proof fn lemma_setexpr_reaches(e: SqlSetExpr, env: CteEnv, id: Seq<char>)
    requires
        setexpr_reads(e, id),
        env_lookup_spec(env, unicode_lowercase(id)) is None,
    ensures
        setexpr_sources_spec(e, env).contains(id),
    decreases e,
{
    match e {
        SqlSetExpr::Select(from) => lemma_twjs_reaches(from@, env, id),
        SqlSetExpr::SetOperation(l, r) => {
            if setexpr_reads(*l, id) {
                lemma_setexpr_reaches(*l, env, id);
            } else {
                lemma_setexpr_reaches(*r, env, id);
            }
            lemma_contains_concat(setexpr_sources_spec(*l, env), setexpr_sources_spec(*r, env), id);
        },
        SqlSetExpr::Query(q) => lemma_query_reaches(*q, env, id),
        SqlSetExpr::Other => {},
    }
}

proof fn lemma_twjs_reaches(ts: Seq<SqlTableWithJoins>, env: CteEnv, id: Seq<char>)
    requires
        twjs_reads(ts, id),
        env_lookup_spec(env, unicode_lowercase(id)) is None,
    ensures
        twjs_sources_spec(ts, env).contains(id),
    decreases ts,
{
    if ts.len() > 0 {
        if twjs_reads(ts.drop_last(), id) {
            lemma_twjs_reaches(ts.drop_last(), env, id);
        } else {
            lemma_twj_reaches(ts.last(), env, id);
        }
        lemma_contains_concat(twjs_sources_spec(ts.drop_last(), env), twj_sources_spec(ts.last(), env), id);
    }
}

proof fn lemma_twj_reaches(t: SqlTableWithJoins, env: CteEnv, id: Seq<char>)
    requires
        twj_reads(t, id),
        env_lookup_spec(env, unicode_lowercase(id)) is None,
    ensures
        twj_sources_spec(t, env).contains(id),
    decreases t,
{
    if factor_reads(t.relation, id) {
        lemma_factor_reaches(t.relation, env, id);
    } else {
        lemma_factors_reaches(t.joins@, env, id);
    }
    lemma_contains_concat(factor_sources_spec(t.relation, env), factors_sources_spec(t.joins@, env), id);
}

proof fn lemma_factors_reaches(fs: Seq<SqlTableFactor>, env: CteEnv, id: Seq<char>)
    requires
        factors_reads(fs, id),
        env_lookup_spec(env, unicode_lowercase(id)) is None,
    ensures
        factors_sources_spec(fs, env).contains(id),
    decreases fs,
{
    if fs.len() > 0 {
        if factors_reads(fs.drop_last(), id) {
            lemma_factors_reaches(fs.drop_last(), env, id);
        } else {
            lemma_factor_reaches(fs.last(), env, id);
        }
        lemma_contains_concat(factors_sources_spec(fs.drop_last(), env), factor_sources_spec(fs.last(), env), id);
    }
}

proof fn lemma_factor_reaches(f: SqlTableFactor, env: CteEnv, id: Seq<char>)
    requires
        factor_reads(f, id),
        env_lookup_spec(env, unicode_lowercase(id)) is None,
    ensures
        factor_sources_spec(f, env).contains(id),
    decreases f,
{
    match f {
        SqlTableFactor::Table(parts) => {
            assert(table_sources_spec(parts@, env) == seq![id]);
            assert(seq![id][0] == id);
        },
        SqlTableFactor::Derived(q) => lemma_query_reaches(*q, env, id),
        SqlTableFactor::NestedJoin(t) => lemma_twj_reaches(*t, env, id),
        SqlTableFactor::Other => {},
    }
}

/// Every table that a query names in a `FROM` clause, anywhere in its body
/// (through set operations, parenthesised queries, joins and subqueries),
/// is one of its upstream tables, unless a CTE in scope has its name.
pub proof fn every_named_table_is_upstream(q: SqlQuery, env: CteEnv, id: Seq<char>)
    requires
        query_reads(q, id),
        env_lookup_spec(env, unicode_lowercase(id)) is None,
    ensures
        query_sources_spec(q, env).contains(id),
{
    lemma_query_reaches(q, env, id);
}

/// For a top-level query: every table it names that is not one of its
/// CTEs, in any case, is one of its upstream tables.
pub proof fn every_named_real_table_reaches_lineage(q: SqlQuery, id: Seq<char>)
    requires
        query_reads(q, id),
        forall|m: int| 0 <= m < q.ctes@.len() ==> unicode_lowercase(id) != unicode_lowercase(
            #[trigger] q.ctes@[m].alias@,
        ),
    ensures
        lineage_sources_spec(q).contains(id),
{
    let env = cte_env_spec(q.ctes@);
    cte_scope_keys_are_lowercased_aliases(q.ctes@);
    if env_lookup_spec(env, unicode_lowercase(id)) is Some {
        lemma_lookup_found_key(env, unicode_lowercase(id));
        let k = choose|k: int| 0 <= k < env.len() && #[trigger] env[k].0 == unicode_lowercase(id);
        assert(env[k].0 == unicode_lowercase(q.ctes@[k].alias@));
    }
    lemma_query_reaches(q, env, id);
}

proof fn lemma_lookup_found_key(env: CteEnv, key: Seq<char>)
    requires
        env_lookup_spec(env, key) is Some,
    ensures
        exists|k: int| 0 <= k < env.len() && #[trigger] env[k].0 == key,
    decreases env.len(),
{
    if env.last().0 == key {
        assert(env[env.len() - 1].0 == key);
    } else {
        lemma_lookup_found_key(env.drop_last(), key);
        let k = choose|k: int| 0 <= k < env.drop_last().len() && #[trigger] env.drop_last()[k].0 == key;
        assert(env[k] == env.drop_last()[k]);
    }
}

// ── Executable extraction ────────────────────────────────────────────────────

/// The CTE scope as held at run time.
pub open spec fn env_view(env: Seq<(String, Vec<String>)>) -> CteEnv {
    env.map_values(|e: (String, Vec<String>)| (e.0@, string_views(e.1@)))
}

/// A copy of a list of strings.
pub fn copy_strings(v: &Vec<String>) -> (r: Vec<String>)
    ensures
        string_views(r@) == string_views(v@),
{
    let mut out: Vec<String> = Vec::new();
    let mut i: usize = 0;
    while i < v.len()
        invariant
            i <= v@.len(),
            string_views(out@) == string_views(v@.take(i as int)),
        decreases v.len() - i,
    {
        let ghost before = out@;
        let c = v[i].clone();
        assert(c@ == v@[i as int]@);
        out.push(c);
        assert(v@.take(i + 1) =~= v@.take(i as int).push(v@[i as int]));
        assert(out@ =~= before.push(c));
        assert(string_views(out@) =~= string_views(before).push(c@));
        assert(string_views(v@.take(i + 1)) =~= string_views(v@.take(i as int)).push(v@[i as int]@));
        i = i + 1;
    }
    assert(v@.take(v.len() as int) =~= v@);
    out
}

/// Appends `more` to `out`, as views.
fn extend_strings(out: &mut Vec<String>, more: Vec<String>)
    ensures
        string_views(final(out)@) == string_views(old(out)@) + string_views(more@),
{
    let mut more = more;
    let ghost m = more@;
    out.append(&mut more);
    assert(string_views(final(out)@) =~= string_views(old(out)@) + string_views(m));
}

fn ident_id(i: &SqlIdent) -> (r: String)
    ensures
        r@ == ident_id_spec(*i),
{
    if i.quoted {
        i.value.clone()
    } else {
        to_lowercase(i.value.as_str())
    }
}

/// The canonical id of a name.
pub fn name_id(parts: &Vec<SqlIdent>) -> (r: String)
    ensures
        r@ == name_id_spec(parts@),
{
    let ghost ids = parts@.map_values(|i: SqlIdent| ident_id_spec(i));
    let mut out = String::new();
    let mut i: usize = 0;
    while i < parts.len()
        invariant
            i <= parts@.len(),
            ids == parts@.map_values(|i: SqlIdent| ident_id_spec(i)),
            out@ == join_spec(ids.take(i as int), seq!['.']),
        decreases parts.len() - i,
    {
        assert(ids.take(i + 1).drop_last() =~= ids.take(i as int));
        if i > 0 {
            push_char(&mut out, '.');
        } else {
            assert(ids.take(i as int) =~= Seq::<Seq<char>>::empty());
        }
        let id = ident_id(&parts[i]);
        push_str(&mut out, id.as_str());
        assert(out@ =~= join_spec(ids.take(i + 1), seq!['.']));
        i = i + 1;
    }
    assert(ids.take(parts.len() as int) =~= ids);
    out
}

fn env_lookup(env: &Vec<(String, Vec<String>)>, key: &String) -> (r: Option<Vec<String>>)
    ensures
        match env_lookup_spec(env_view(env@), key@) {
            Some(s) => r matches Some(v) && string_views(v@) == s,
            None => r is None,
        },
{
    let mut i = env.len();
    assert(env_view(env@).take(i as int) =~= env_view(env@));
    while i > 0
        invariant
            i <= env@.len(),
            env_lookup_spec(env_view(env@), key@) == env_lookup_spec(
                env_view(env@).take(i as int),
                key@,
            ),
        decreases i,
    {
        assert(env_view(env@).take(i as int).drop_last() =~= env_view(env@).take(i - 1));
        if env[i - 1].0 == *key {
            return Some(copy_strings(&env[i - 1].1));
        }
        i = i - 1;
    }
    None
}

fn table_sources(parts: &Vec<SqlIdent>, env: &Vec<(String, Vec<String>)>) -> (r: Vec<String>)
    ensures
        string_views(r@) == table_sources_spec(parts@, env_view(env@)),
{
    let id = name_id(parts);
    let key = to_lowercase(id.as_str());
    match env_lookup(env, &key) {
        Some(v) => v,
        None => {
            let mut v: Vec<String> = Vec::new();
            v.push(id);
            assert(string_views(v@) =~= seq![name_id_spec(parts@)]);
            v
        },
    }
}

/// The upstream tables of a query's body under the CTE scope `env`.
pub fn query_sources(q: &SqlQuery, env: &Vec<(String, Vec<String>)>) -> (r: Vec<String>)
    ensures
        string_views(r@) == query_sources_spec(*q, env_view(env@)),
    decreases q,
{
    setexpr_sources(&q.body, env)
}

fn setexpr_sources(e: &SqlSetExpr, env: &Vec<(String, Vec<String>)>) -> (r: Vec<String>)
    ensures
        string_views(r@) == setexpr_sources_spec(*e, env_view(env@)),
    decreases e,
{
    match e {
        SqlSetExpr::Select(from) => twjs_sources(from, env),
        SqlSetExpr::SetOperation(l, r) => {
            let mut out = setexpr_sources(l, env);
            let more = setexpr_sources(r, env);
            extend_strings(&mut out, more);
            out
        },
        SqlSetExpr::Query(q) => query_sources(q, env),
        SqlSetExpr::Other => {
            let v: Vec<String> = Vec::new();
            assert(string_views(v@) =~= Seq::<Seq<char>>::empty());
            v
        },
    }
}

fn twjs_sources(ts: &Vec<SqlTableWithJoins>, env: &Vec<(String, Vec<String>)>) -> (r: Vec<String>)
    ensures
        string_views(r@) == twjs_sources_spec(ts@, env_view(env@)),
    decreases ts,
{
    let mut out: Vec<String> = Vec::new();
    let mut i: usize = 0;
    assert(string_views(out@) =~= twjs_sources_spec(ts@.take(0), env_view(env@)));
    while i < ts.len()
        invariant
            i <= ts@.len(),
            string_views(out@) == twjs_sources_spec(ts@.take(i as int), env_view(env@)),
        decreases ts.len() - i,
    {
        assert(ts@.take(i + 1).drop_last() =~= ts@.take(i as int));
        assert(ts@.take(i + 1).last() == ts@[i as int]);
        let more = twj_sources(&ts[i], env);
        extend_strings(&mut out, more);
        i = i + 1;
    }
    assert(ts@.take(ts.len() as int) =~= ts@);
    out
}

fn twj_sources(t: &SqlTableWithJoins, env: &Vec<(String, Vec<String>)>) -> (r: Vec<String>)
    ensures
        string_views(r@) == twj_sources_spec(*t, env_view(env@)),
    decreases t,
{
    let mut out = factor_sources(&t.relation, env);
    let more = factors_sources(&t.joins, env);
    extend_strings(&mut out, more);
    out
}

fn factors_sources(fs: &Vec<SqlTableFactor>, env: &Vec<(String, Vec<String>)>) -> (r: Vec<String>)
    ensures
        string_views(r@) == factors_sources_spec(fs@, env_view(env@)),
    decreases fs,
{
    let mut out: Vec<String> = Vec::new();
    let mut i: usize = 0;
    assert(string_views(out@) =~= factors_sources_spec(fs@.take(0), env_view(env@)));
    while i < fs.len()
        invariant
            i <= fs@.len(),
            string_views(out@) == factors_sources_spec(fs@.take(i as int), env_view(env@)),
        decreases fs.len() - i,
    {
        assert(fs@.take(i + 1).drop_last() =~= fs@.take(i as int));
        assert(fs@.take(i + 1).last() == fs@[i as int]);
        let more = factor_sources(&fs[i], env);
        extend_strings(&mut out, more);
        i = i + 1;
    }
    assert(fs@.take(fs.len() as int) =~= fs@);
    out
}

fn factor_sources(f: &SqlTableFactor, env: &Vec<(String, Vec<String>)>) -> (r: Vec<String>)
    ensures
        string_views(r@) == factor_sources_spec(*f, env_view(env@)),
    decreases f,
{
    match f {
        SqlTableFactor::Table(parts) => table_sources(parts, env),
        SqlTableFactor::Derived(q) => query_sources(q, env),
        SqlTableFactor::NestedJoin(t) => twj_sources(t, env),
        SqlTableFactor::Other => {
            let v: Vec<String> = Vec::new();
            assert(string_views(v@) =~= Seq::<Seq<char>>::empty());
            v
        },
    }
}


// ── CTE scope and statements ─────────────────────────────────────────────────

/// The scope a query's `WITH` clause sets up: each CTE in order, its alias
/// lower-cased, standing for the tables its body reads under the CTEs
/// before it.
pub open spec fn cte_env_spec(ctes: Seq<SqlCte>) -> CteEnv
    decreases ctes.len(),
{
    if ctes.len() == 0 {
        Seq::empty()
    } else {
        let env = cte_env_spec(ctes.drop_last());
        env.push((unicode_lowercase(ctes.last().alias@), query_sources_spec(ctes.last().query, env)))
    }
}

/// The upstream tables of a top-level query: CTE references are replaced by
/// the tables behind them, so a CTE name never appears.
pub open spec fn lineage_sources_spec(q: SqlQuery) -> Seq<Seq<char>> {
    query_sources_spec(q, cte_env_spec(q.ctes@))
}

/// The CTE scope of a query's `WITH` clause.
pub fn resolve_cte_sources(q: &SqlQuery) -> (env: Vec<(String, Vec<String>)>)
    ensures
        env_view(env@) == cte_env_spec(q.ctes@),
{
    let mut env: Vec<(String, Vec<String>)> = Vec::new();
    let mut i: usize = 0;
    assert(env_view(env@) =~= cte_env_spec(q.ctes@.take(0)));
    while i < q.ctes.len()
        invariant
            i <= q.ctes@.len(),
            env_view(env@) == cte_env_spec(q.ctes@.take(i as int)),
        decreases q.ctes.len() - i,
    {
        assert(q.ctes@.take(i + 1).drop_last() =~= q.ctes@.take(i as int));
        assert(q.ctes@.take(i + 1).last() == q.ctes@[i as int]);
        let name = to_lowercase(q.ctes[i].alias.as_str());
        let sources = query_sources(&q.ctes[i].query, &env);
        let ghost before = env@;
        env.push((name, sources));
        assert(env@ =~= before.push((name, sources)));
        assert(env_view(env@) =~= env_view(before).push((name@, string_views(sources@))));
        i = i + 1;
    }
    assert(q.ctes@.take(q.ctes.len() as int) =~= q.ctes@);
    env
}

/// The target and upstream tables of a statement that creates lineage:
/// `CREATE TABLE .. AS`, `CREATE VIEW .. AS` and `INSERT .. SELECT`.
pub open spec fn statement_lineage(s: SqlStatement) -> Option<(Seq<char>, SqlQuery)> {
    match s {
        SqlStatement::CreateTable { name, query: Some(q) } => Some((name_id_spec(name@), *q)),
        SqlStatement::CreateView { name, query } => Some((name_id_spec(name@), *query)),
        SqlStatement::Insert { table, source: Some(q) } => Some((name_id_spec(table@), *q)),
        _ => None,
    }
}

/// The node ids a statement yields, in order: the target, then each
/// upstream table; for a bare query its upstream tables only.
pub open spec fn statement_node_ids(s: SqlStatement) -> Seq<Seq<char>> {
    match statement_lineage(s) {
        Some((target, q)) => seq![target] + lineage_sources_spec(q),
        None => match s {
            SqlStatement::Query(q) => lineage_sources_spec(*q),
            _ => Seq::empty(),
        },
    }
}

/// The edges a statement yields: one from each upstream table to the target.
pub open spec fn statement_edges(s: SqlStatement) -> Seq<(Seq<char>, Seq<char>)> {
    match statement_lineage(s) {
        Some((target, q)) => lineage_sources_spec(q).map_values(|src: Seq<char>| (src, target)),
        None => Seq::empty(),
    }
}

/// The node ids of all statements, in order.
pub open spec fn statements_node_ids(ss: Seq<SqlStatement>) -> Seq<Seq<char>>
    decreases ss.len(),
{
    if ss.len() == 0 {
        Seq::empty()
    } else {
        statements_node_ids(ss.drop_last()) + statement_node_ids(ss.last())
    }
}

/// The edges of all statements, in order.
pub open spec fn statements_edges(ss: Seq<SqlStatement>) -> Seq<(Seq<char>, Seq<char>)>
    decreases ss.len(),
{
    if ss.len() == 0 {
        Seq::empty()
    } else {
        statements_edges(ss.drop_last()) + statement_edges(ss.last())
    }
}

/// Every edge extracted from SQL joins two extracted nodes: the target and
/// each upstream table of a statement are always recorded as nodes too.
pub proof fn extracted_edges_join_extracted_nodes(ss: Seq<SqlStatement>)
    ensures
        forall|i: int|
            0 <= i < statements_edges(ss).len() ==> statements_node_ids(ss).contains(
                (#[trigger] statements_edges(ss)[i]).0,
            ) && statements_node_ids(ss).contains(statements_edges(ss)[i].1),
    decreases ss.len(),
{
    if ss.len() > 0 {
        let prev = ss.drop_last();
        extracted_edges_join_extracted_nodes(prev);
        let pe = statements_edges(prev);
        let pn = statements_node_ids(prev);
        let se = statement_edges(ss.last());
        let sn = statement_node_ids(ss.last());
        assert(statements_edges(ss) == pe + se);
        assert(statements_node_ids(ss) == pn + sn);
        assert forall|i: int| 0 <= i < (pe + se).len() implies (pn + sn).contains(
            (#[trigger] (pe + se)[i]).0,
        ) && (pn + sn).contains((pe + se)[i].1) by {
            if i < pe.len() {
                assert((pe + se)[i] == pe[i]);
                let a = choose|a: int| 0 <= a < pn.len() && pn[a] == pe[i].0;
                let b = choose|b: int| 0 <= b < pn.len() && pn[b] == pe[i].1;
                assert((pn + sn)[a] == pn[a]);
                assert((pn + sn)[b] == pn[b]);
            } else {
                let k = i - pe.len();
                assert((pe + se)[i] == se[k]);
                match statement_lineage(ss.last()) {
                    Some((target, q)) => {
                        let srcs = lineage_sources_spec(q);
                        assert(se[k] == (srcs[k], target));
                        assert(sn[0] == target);
                        assert(sn[k + 1] == srcs[k]);
                        assert((pn + sn)[pn.len() as int] == target);
                        assert((pn + sn)[pn.len() + k + 1] == srcs[k]);
                    },
                    None => {},
                }
            }
        }
    }
}

/// A node as the SQL shaver makes it: labelled with its id, of type `sql`.
pub open spec fn is_sql_node(n: Node) -> bool {
    n.label@ == n.id@ && n.source_type@ == "sql"@
}

/// The SQL shaver's own node for `id`.
fn push_node(strand: &mut Strand, id: &String)
    ensures
        final(strand).source_path == old(strand).source_path,
        final(strand).edges@ == old(strand).edges@,
        final(strand).nodes@.len() == old(strand).nodes@.len() + 1,
        forall|i: int| 0 <= i < old(strand).nodes@.len() ==> final(strand).nodes@[i] == old(strand).nodes@[i],
        final(strand).nodes@.last().id@ == id@,
        is_sql_node(final(strand).nodes@.last()),
{
    strand.nodes.push(Node { id: id.clone(), label: id.clone(), source_type: string_of("sql") });
}

/// The strand's contents are those of the statements, built by the shaver.
pub open spec fn strand_holds(strand: Strand, ss: Seq<SqlStatement>) -> bool {
    &&& node_ids(strand.nodes@) == statements_node_ids(ss)
    &&& forall|i: int| 0 <= i < strand.nodes@.len() ==> #[trigger] is_sql_node(strand.nodes@[i])
    &&& edge_pairs(strand.edges@) == statements_edges(ss)
}

fn push_sources(strand: &mut Strand, sources: &Vec<String>, target: Option<&String>)
    ensures
        final(strand).source_path == old(strand).source_path,
        node_ids(final(strand).nodes@) == node_ids(old(strand).nodes@) + string_views(sources@),
        forall|i: int|
            0 <= i < old(strand).nodes@.len() ==> final(strand).nodes@[i] == old(strand).nodes@[i],
        forall|i: int|
            old(strand).nodes@.len() <= i < final(strand).nodes@.len() ==> #[trigger] is_sql_node(
                final(strand).nodes@[i],
            ),
        edge_pairs(final(strand).edges@) == edge_pairs(old(strand).edges@) + match target {
            Some(t) => string_views(sources@).map_values(|src: Seq<char>| (src, t@)),
            None => Seq::empty(),
        },
{
    let ghost target_edges = match target {
        Some(t) => string_views(sources@).map_values(|src: Seq<char>| (src, t@)),
        None => Seq::<(Seq<char>, Seq<char>)>::empty(),
    };
    let mut i: usize = 0;
    while i < sources.len()
        invariant
            i <= sources@.len(),
            strand.source_path == old(strand).source_path,
            target_edges == match target {
                Some(t) => string_views(sources@).map_values(|src: Seq<char>| (src, t@)),
                None => Seq::<(Seq<char>, Seq<char>)>::empty(),
            },
            node_ids(strand.nodes@) == node_ids(old(strand).nodes@) + string_views(
                sources@.take(i as int),
            ),
            forall|j: int|
                0 <= j < old(strand).nodes@.len() ==> strand.nodes@[j] == old(strand).nodes@[j],
            forall|j: int|
                old(strand).nodes@.len() <= j < strand.nodes@.len() ==> #[trigger] is_sql_node(
                    strand.nodes@[j],
                ),
            edge_pairs(strand.edges@) == edge_pairs(old(strand).edges@) + (match target {
                Some(t) => target_edges.take(i as int),
                None => Seq::empty(),
            }),
        decreases sources.len() - i,
    {
        let ghost nodes_before = strand.nodes@;
        let ghost edges_before = strand.edges@;
        push_node(strand, &sources[i]);
        assert(node_ids(strand.nodes@) =~= node_ids(nodes_before).push(sources@[i as int]@));
        assert(string_views(sources@.take(i + 1)) =~= string_views(sources@.take(i as int)).push(
            sources@[i as int]@,
        ));
        match target {
            Some(t) => {
                strand.edges.push(Edge { from: sources[i].clone(), to: t.clone() });
                assert(edge_pairs(strand.edges@) =~= edge_pairs(edges_before).push(
                    (sources@[i as int]@, t@),
                ));
                assert(target_edges.take(i + 1) =~= target_edges.take(i as int).push(
                    (sources@[i as int]@, t@),
                ));
            },
            None => {},
        }
        i = i + 1;
    }
    assert(sources@.take(sources.len() as int) =~= sources@);
    proof {
        if target is Some {
            assert(target_edges.take(sources.len() as int) =~= target_edges);
        }
    }
}

/// The lineage of one statement, appended to the strand.
fn extract_statement(stmt: &SqlStatement, strand: &mut Strand)
    ensures
        final(strand).source_path == old(strand).source_path,
        node_ids(final(strand).nodes@) == node_ids(old(strand).nodes@) + statement_node_ids(*stmt),
        forall|i: int|
            0 <= i < old(strand).nodes@.len() ==> final(strand).nodes@[i] == old(strand).nodes@[i],
        forall|i: int|
            old(strand).nodes@.len() <= i < final(strand).nodes@.len() ==> #[trigger] is_sql_node(
                final(strand).nodes@[i],
            ),
        edge_pairs(final(strand).edges@) == edge_pairs(old(strand).edges@) + statement_edges(*stmt),
{
    match stmt {
        SqlStatement::CreateTable { name, query: Some(q) } => {
            add_lineage(&name_id(name), q, strand);
        },
        SqlStatement::CreateView { name, query } => {
            add_lineage(&name_id(name), query, strand);
        },
        SqlStatement::Insert { table, source: Some(q) } => {
            add_lineage(&name_id(table), q, strand);
        },
        SqlStatement::Query(q) => {
            let env = resolve_cte_sources(q);
            let sources = query_sources(q, &env);
            push_sources(strand, &sources, None);
            assert(edge_pairs(strand.edges@) =~= edge_pairs(old(strand).edges@));
        },
        _ => {
            assert(node_ids(strand.nodes@) =~= node_ids(old(strand).nodes@) + Seq::empty());
            assert(edge_pairs(strand.edges@) =~= edge_pairs(old(strand).edges@) + Seq::empty());
        },
    }
}

/// `target` and its upstream tables as nodes, and an edge from each upstream
/// table to `target`.
fn add_lineage(target: &String, query: &SqlQuery, strand: &mut Strand)
    ensures
        final(strand).source_path == old(strand).source_path,
        node_ids(final(strand).nodes@) == node_ids(old(strand).nodes@) + (seq![target@]
            + lineage_sources_spec(*query)),
        forall|i: int|
            0 <= i < old(strand).nodes@.len() ==> final(strand).nodes@[i] == old(strand).nodes@[i],
        forall|i: int|
            old(strand).nodes@.len() <= i < final(strand).nodes@.len() ==> #[trigger] is_sql_node(
                final(strand).nodes@[i],
            ),
        edge_pairs(final(strand).edges@) == edge_pairs(old(strand).edges@) + lineage_sources_spec(
            *query,
        ).map_values(|src: Seq<char>| (src, target@)),
{
    let env = resolve_cte_sources(query);
    let sources = query_sources(query, &env);
    let ghost nodes0 = strand.nodes@;
    push_node(strand, target);
    assert(node_ids(strand.nodes@) =~= node_ids(nodes0).push(target@));
    push_sources(strand, &sources, Some(target));
    assert(node_ids(strand.nodes@) =~= node_ids(old(strand).nodes@) + (seq![target@]
        + lineage_sources_spec(*query)));
}

/// The lineage of a list of statements, as one strand for `source_path`.
pub fn extract_lineage(statements: &[SqlStatement], source_path: PathBuf) -> (r: Strand)
    ensures
        r.source_path == source_path,
        strand_holds(r, statements@),
{
    let mut strand = Strand::new(source_path);
    let mut i: usize = 0;
    assert(node_ids(strand.nodes@) =~= statements_node_ids(statements@.take(0)));
    assert(edge_pairs(strand.edges@) =~= statements_edges(statements@.take(0)));
    while i < statements.len()
        invariant
            i <= statements@.len(),
            strand.source_path == source_path,
            node_ids(strand.nodes@) == statements_node_ids(statements@.take(i as int)),
            forall|j: int| 0 <= j < strand.nodes@.len() ==> #[trigger] is_sql_node(strand.nodes@[j]),
            edge_pairs(strand.edges@) == statements_edges(statements@.take(i as int)),
        decreases statements.len() - i,
    {
        assert(statements@.take(i + 1).drop_last() =~= statements@.take(i as int));
        assert(statements@.take(i + 1).last() == statements@[i as int]);
        let ghost before = strand.nodes@;
        extract_statement(&statements[i], &mut strand);
        assert forall|j: int| 0 <= j < strand.nodes@.len() implies #[trigger] is_sql_node(
            strand.nodes@[j],
        ) by {
            if j < before.len() {
                assert(strand.nodes@[j] == before[j]);
            }
        }
        i = i + 1;
    }
    assert(statements@.take(statements.len() as int) =~= statements@);
    strand
}


// ── Dialects and parsing ─────────────────────────────────────────────────────

/// The SQL dialect the parser follows.
#[derive(Debug, Clone, Copy, PartialEq, Eq, Structural)]
pub enum SqlDialect {
    Generic,
    Ansi,
    Postgres,
    MySql,
    MsSql,
    BigQuery,
    Snowflake,
    Hive,
    Redshift,
    SQLite,
    DuckDb,
    ClickHouse,
}

/// The dialect names, as users write them and as the parser knows them.
pub open spec fn dialect_name_spec(d: SqlDialect) -> Seq<char> {
    match d {
        SqlDialect::Generic => "generic"@,
        SqlDialect::Ansi => "ansi"@,
        SqlDialect::Postgres => "postgres"@,
        SqlDialect::MySql => "mysql"@,
        SqlDialect::MsSql => "mssql"@,
        SqlDialect::BigQuery => "bigquery"@,
        SqlDialect::Snowflake => "snowflake"@,
        SqlDialect::Hive => "hive"@,
        SqlDialect::Redshift => "redshift"@,
        SqlDialect::SQLite => "sqlite"@,
        SqlDialect::DuckDb => "duckdb"@,
        SqlDialect::ClickHouse => "clickhouse"@,
    }
}

/// The names that the parser's `dialect_from_str` maps to a dialect, in
/// lower case.
pub open spec fn is_known_dialect_name(n: Seq<char>) -> bool {
    n == "generic"@ || n == "mysql"@ || n == "postgresql"@ || n == "postgres"@ || n == "hive"@ || n
        == "sqlite"@ || n == "snowflake"@ || n == "redshift"@ || n == "mssql"@ || n == "clickhouse"@
        || n == "bigquery"@ || n == "ansi"@ || n == "duckdb"@
}

impl SqlDialect {
    /// The dialect's name.
    pub fn name(&self) -> (r: &'static str)
        ensures
            r@ == dialect_name_spec(*self),
            is_known_dialect_name(r@),
    {
        match self {
            SqlDialect::Generic => "generic",
            SqlDialect::Ansi => "ansi",
            SqlDialect::Postgres => "postgres",
            SqlDialect::MySql => "mysql",
            SqlDialect::MsSql => "mssql",
            SqlDialect::BigQuery => "bigquery",
            SqlDialect::Snowflake => "snowflake",
            SqlDialect::Hive => "hive",
            SqlDialect::Redshift => "redshift",
            SqlDialect::SQLite => "sqlite",
            SqlDialect::DuckDb => "duckdb",
            SqlDialect::ClickHouse => "clickhouse",
        }
    }

    /// The dialect of the given name, if it is one of the twelve names.
    pub fn from_name(s: &str) -> (r: Option<SqlDialect>)
        ensures
            r matches Some(d) ==> dialect_name_spec(d) == s@,
            r is None ==> forall|d: SqlDialect| dialect_name_spec(d) != s@,
    {
        let all = [
            SqlDialect::Generic,
            SqlDialect::Ansi,
            SqlDialect::Postgres,
            SqlDialect::MySql,
            SqlDialect::MsSql,
            SqlDialect::BigQuery,
            SqlDialect::Snowflake,
            SqlDialect::Hive,
            SqlDialect::Redshift,
            SqlDialect::SQLite,
            SqlDialect::DuckDb,
            SqlDialect::ClickHouse,
        ];
        let mut i: usize = 0;
        while i < 12
            invariant
                i <= 12,
                all@ == seq![
                    SqlDialect::Generic,
                    SqlDialect::Ansi,
                    SqlDialect::Postgres,
                    SqlDialect::MySql,
                    SqlDialect::MsSql,
                    SqlDialect::BigQuery,
                    SqlDialect::Snowflake,
                    SqlDialect::Hive,
                    SqlDialect::Redshift,
                    SqlDialect::SQLite,
                    SqlDialect::DuckDb,
                    SqlDialect::ClickHouse,
                ],
                forall|j: int| 0 <= j < i ==> dialect_name_spec(#[trigger] all@[j]) != s@,
            decreases 12 - i,
        {
            let d = all[i];
            if crate::text::str_eq(d.name(), s) {
                return Some(d);
            }
            i = i + 1;
        }
        proof {
            assert forall|d: SqlDialect| dialect_name_spec(d) != s@ by {
                match d {
                    SqlDialect::Generic => assert(all@[0] == d),
                    SqlDialect::Ansi => assert(all@[1] == d),
                    SqlDialect::Postgres => assert(all@[2] == d),
                    SqlDialect::MySql => assert(all@[3] == d),
                    SqlDialect::MsSql => assert(all@[4] == d),
                    SqlDialect::BigQuery => assert(all@[5] == d),
                    SqlDialect::Snowflake => assert(all@[6] == d),
                    SqlDialect::Hive => assert(all@[7] == d),
                    SqlDialect::Redshift => assert(all@[8] == d),
                    SqlDialect::SQLite => assert(all@[9] == d),
                    SqlDialect::DuckDb => assert(all@[10] == d),
                    SqlDialect::ClickHouse => assert(all@[11] == d),
                }
            }
        }
        None
    }
}

impl Default for SqlDialect {
    fn default() -> (r: Self)
        ensures
            r == SqlDialect::Generic,
    {
        SqlDialect::Generic
    }
}

#[verifier::external_type_specification]
#[verifier::external_body]
pub struct ExStatement(Statement);

#[verifier::external_type_specification]
#[verifier::external_body]
pub struct ExQuery(Query);

#[verifier::external_type_specification]
#[verifier::external_body]
pub struct ExSetExpr(SetExpr);

#[verifier::external_type_specification]
#[verifier::external_body]
pub struct ExTableWithJoins(TableWithJoins);

#[verifier::external_type_specification]
#[verifier::external_body]
pub struct ExTableFactor(TableFactor);

#[verifier::external_type_specification]
#[verifier::external_body]
pub struct ExObjectName(ObjectName);

/// Moves a parsed name into the lineage model: each identifier's text and
/// whether it carried a quote.
#[verifier::external_body]
fn name_model(n: &ObjectName) -> Vec<SqlIdent> {
    n.0.iter().map(|i| SqlIdent { value: i.value.clone(), quoted: i.quote_style.is_some() }).collect()
}

/// Moves a parsed statement into the lineage model, one variant each.
#[verifier::external_body]
fn statement_model(s: &Statement) -> SqlStatement {
    let q = |q: &Query| Box::new(query_model(q));
    match s {
        Statement::CreateTable(ct) => {
            SqlStatement::CreateTable { name: name_model(&ct.name), query: ct.query.as_deref().map(q) }
        },
        Statement::CreateView { name, query, .. } => {
            SqlStatement::CreateView { name: name_model(name), query: q(query.as_ref()) }
        },
        Statement::Insert(ins) => {
            SqlStatement::Insert { table: name_model(&ins.table_name), source: ins.source.as_deref().map(q) }
        },
        Statement::Query(query) => SqlStatement::Query(q(query.as_ref())),
        _ => SqlStatement::Other,
    }
}

/// Moves a parsed query into the lineage model: its CTEs (alias and query)
/// and its body.
#[verifier::external_body]
fn query_model(q: &Query) -> SqlQuery {
    let ctes = match &q.with {
        Some(w) => w.cte_tables.iter().map(|c| SqlCte {
            alias: c.alias.name.value.clone(),
            query: query_model(&c.query),
        }).collect(),
        None => Vec::new(),
    };
    SqlQuery { ctes, body: set_expr_model(&q.body) }
}

/// Moves a parsed query body into the lineage model, one variant each.
#[verifier::external_body]
fn set_expr_model(e: &SetExpr) -> SqlSetExpr {
    match e {
        SetExpr::Select(sel) => SqlSetExpr::Select(sel.from.iter().map(table_with_joins_model).collect()),
        SetExpr::SetOperation { left, right, .. } => SqlSetExpr::SetOperation(
            Box::new(set_expr_model(left)),
            Box::new(set_expr_model(right)),
        ),
        SetExpr::Query(q) => SqlSetExpr::Query(Box::new(query_model(q))),
        _ => SqlSetExpr::Other,
    }
}

/// Moves a parsed `FROM` item into the lineage model: its relation and the
/// relation of each join.
#[verifier::external_body]
fn table_with_joins_model(t: &TableWithJoins) -> SqlTableWithJoins {
    SqlTableWithJoins {
        relation: table_factor_model(&t.relation),
        joins: t.joins.iter().map(|j| table_factor_model(&j.relation)).collect(),
    }
}

/// Moves a parsed table reference into the lineage model, one variant each.
#[verifier::external_body]
fn table_factor_model(f: &TableFactor) -> SqlTableFactor {
    match f {
        TableFactor::Table { name, .. } => SqlTableFactor::Table(name_model(name)),
        TableFactor::Derived { subquery, .. } => SqlTableFactor::Derived(Box::new(query_model(subquery))),
        TableFactor::NestedJoin { table_with_joins, .. } => SqlTableFactor::NestedJoin(
            Box::new(table_with_joins_model(table_with_joins)),
        ),
        _ => SqlTableFactor::Other,
    }
}

/// What sqlparser's `Parser::parse_sql` yields for a dialect name and a SQL
/// text, in the lineage model: `None` when `dialect_from_str` knows no such
/// dialect, else the statements or the parser's error message.
pub uninterp spec fn sqlparser_parse(dialect: Seq<char>, sql: Seq<char>) -> Option<
    Result<Seq<SqlStatement>, Seq<char>>,
>;

/// A parse outcome as views.
pub open spec fn parse_view(r: Option<Result<Vec<SqlStatement>, String>>) -> Option<
    Result<Seq<SqlStatement>, Seq<char>>,
> {
    match r {
        Some(Ok(v)) => Some(Ok(v@)),
        Some(Err(e)) => Some(Err(e@)),
        None => None,
    }
}

// ── Inputs the parser cannot take ───────────────────────────────────────────

/// The keywords that the parser's failure points turn on.
pub enum SqlKeyword {
    Granted,
    By,
    For,
    Channel,
    Div,
    /// Any other keyword, or none.
    Other,
}

/// A token of sqlparser's tokenizer, keeping only what the failure points
/// of the parser read.
pub enum SqlToken {
    /// A word, quoted or not, with the keyword it spells (a quoted word
    /// spells none).
    Word(SqlKeyword),
    /// A single- or double-quoted string.
    Quoted,
    /// `.`
    Period,
    /// Whitespace or a comment, which the parser skips.
    Space,
    Other,
}

#[verifier::external_type_specification]
#[verifier::external_body]
pub struct ExToken(Token);

/// Moves a token into the model, one variant each.
#[verifier::external_body]
fn token_model(t: &Token) -> SqlToken {
    match t {
        Token::Word(w) => SqlToken::Word(match w.keyword {
            Keyword::GRANTED => SqlKeyword::Granted,
            Keyword::BY => SqlKeyword::By,
            Keyword::FOR => SqlKeyword::For,
            Keyword::CHANNEL => SqlKeyword::Channel,
            Keyword::DIV => SqlKeyword::Div,
            _ => SqlKeyword::Other,
        }),
        Token::SingleQuotedString(_) | Token::DoubleQuotedString(_) => SqlToken::Quoted,
        Token::Period => SqlToken::Period,
        Token::Whitespace(_) => SqlToken::Space,
        _ => SqlToken::Other,
    }
}

/// What sqlparser's tokenizer yields for a dialect name and a SQL text, in
/// the token model: `None` when it reports an error.
pub uninterp spec fn sqlparser_tokens(dialect: Seq<char>, sql: Seq<char>) -> Option<Seq<SqlToken>>;

/// sqlparser's `Tokenizer::tokenize`, with the options `Parser::parse_sql`
/// gives it: the tokens of `sql` in the model, or `None` on a tokenizer
/// error. The outcome is named by `sqlparser_tokens`.
#[verifier::external_body]
fn tokenize(dialect: &str, sql: &str) -> (r: Option<Vec<SqlToken>>)
    requires
        is_known_dialect_name(dialect@),
    ensures
        match r {
            Some(v) => sqlparser_tokens(dialect@, sql@) == Some(v@),
            None => sqlparser_tokens(dialect@, sql@) is None,
        },
{
    dialect_from_str(dialect).and_then(|d| Tokenizer::new(d.as_ref(), sql).tokenize().ok()).map(
        |ts| ts.iter().map(token_model).collect(),
    )
}

/// The position of the first token at or after `i` that the parser does
/// not skip, or the end.
pub open spec fn solid_from(ts: Seq<SqlToken>, i: int) -> int
    decreases ts.len() - i,
{
    if i < 0 || i >= ts.len() {
        ts.len() as int
    } else if ts[i] is Space {
        solid_from(ts, i + 1)
    } else {
        i
    }
}

/// The parser's `parse_identifier` takes the token at `j`: a word or a
/// quoted string.
pub open spec fn ident_at(ts: Seq<SqlToken>, j: int) -> bool {
    0 <= j < ts.len() && (ts[j] is Word || ts[j] is Quoted)
}

/// The parser's `parse_object_name` succeeds from `j`: identifiers joined
/// by periods.
pub open spec fn object_name_at(ts: Seq<SqlToken>, j: int) -> bool
    decreases ts.len() - j,
{
    if !ident_at(ts, j) {
        false
    } else {
        let p = solid_from(ts, j + 1);
        if 0 <= p < ts.len() && ts[p] is Period {
            let q = solid_from(ts, p + 1);
            if j < q <= ts.len() {
                object_name_at(ts, q)
            } else {
                false
            }
        } else {
            true
        }
    }
}

/// At token `i` stands one of the parser's failure points: `GRANTED BY`
/// with no identifier after it, `FOR CHANNEL` with no object name after
/// it, or, in the MySQL dialect, the keyword `DIV`.
pub open spec fn hazard_at(dialect: Seq<char>, ts: Seq<SqlToken>, i: int) -> bool {
    &&& 0 <= i < ts.len()
    &&& {
        ||| ts[i] == SqlToken::Word(SqlKeyword::Granted) && {
            let b = solid_from(ts, i + 1);
            b < ts.len() && ts[b] == SqlToken::Word(SqlKeyword::By) && !ident_at(
                ts,
                solid_from(ts, b + 1),
            )
        }
        ||| ts[i] == SqlToken::Word(SqlKeyword::For) && {
            let c = solid_from(ts, i + 1);
            c < ts.len() && ts[c] == SqlToken::Word(SqlKeyword::Channel) && !object_name_at(
                ts,
                solid_from(ts, c + 1),
            )
        }
        ||| dialect == "mysql"@ && ts[i] == SqlToken::Word(SqlKeyword::Div)
    }
}

/// sqlparser 0.50 panics instead of reporting an error where it reads
/// `GRANTED BY` in a `GRANT` or `REVOKE` with no identifier after it, where
/// it reads `FOR CHANNEL` in `FLUSH RELAY LOGS` with no object name after
/// it, and, in the MySQL dialect, where no expression follows the operator
/// `DIV`. Each of these needs its tokens in the token stream; this holds
/// when they are there. A text whose tokens hold them but that the parser
/// never reaches there, and a MySQL text whose `DIV` has its operand, are
/// among the texts on which it holds.
pub open spec fn parse_hazard(dialect: Seq<char>, sql: Seq<char>) -> bool {
    match sqlparser_tokens(dialect, sql) {
        Some(ts) => tokens_hazard(dialect, ts),
        None => false,
    }
}

/// One of the parser's failure points stands somewhere in `ts`.
pub open spec fn tokens_hazard(dialect: Seq<char>, ts: Seq<SqlToken>) -> bool {
    exists|i: int| #[trigger] hazard_at(dialect, ts, i)
}

fn token_is_space(t: &SqlToken) -> (r: bool)
    ensures
        r == (*t is Space),
{
    match t {
        SqlToken::Space => true,
        _ => false,
    }
}

fn token_is_ident(t: &SqlToken) -> (r: bool)
    ensures
        r == (*t is Word || *t is Quoted),
{
    match t {
        SqlToken::Word(_) | SqlToken::Quoted => true,
        _ => false,
    }
}

fn token_is_period(t: &SqlToken) -> (r: bool)
    ensures
        r == (*t is Period),
{
    match t {
        SqlToken::Period => true,
        _ => false,
    }
}

fn token_is_word(t: &SqlToken, k: &SqlKeyword) -> (r: bool)
    ensures
        r == (*t == SqlToken::Word(*k)),
{
    match (t, k) {
        (SqlToken::Word(SqlKeyword::Granted), SqlKeyword::Granted) => true,
        (SqlToken::Word(SqlKeyword::By), SqlKeyword::By) => true,
        (SqlToken::Word(SqlKeyword::For), SqlKeyword::For) => true,
        (SqlToken::Word(SqlKeyword::Channel), SqlKeyword::Channel) => true,
        (SqlToken::Word(SqlKeyword::Div), SqlKeyword::Div) => true,
        (SqlToken::Word(SqlKeyword::Other), SqlKeyword::Other) => true,
        _ => false,
    }
}

/// The position of the first token at or after `i` that is not skipped.
fn next_solid(ts: &Vec<SqlToken>, i: usize) -> (r: usize)
    requires
        i <= ts@.len(),
    ensures
        r as int == solid_from(ts@, i as int),
        i <= r <= ts@.len(),
{
    let mut k: usize = i;
    while k < ts.len() && token_is_space(&ts[k])
        invariant
            i <= k <= ts@.len(),
            solid_from(ts@, k as int) == solid_from(ts@, i as int),
        decreases ts.len() - k,
    {
        k = k + 1;
    }
    k
}

/// Whether the parser's `parse_object_name` succeeds from `j`.
fn object_name_from(ts: &Vec<SqlToken>, j: usize) -> (r: bool)
    requires
        j <= ts@.len(),
    ensures
        r == object_name_at(ts@, j as int),
{
    let mut k: usize = j;
    loop
        invariant
            j <= k <= ts@.len(),
            object_name_at(ts@, k as int) == object_name_at(ts@, j as int),
        decreases ts.len() - k,
    {
        if k >= ts.len() || !token_is_ident(&ts[k]) {
            return false;
        }
        let p = next_solid(ts, k + 1);
        if p < ts.len() && token_is_period(&ts[p]) {
            let q = next_solid(ts, p + 1);
            k = q;
        } else {
            return true;
        }
    }
}

/// Whether one of the parser's failure points stands at token `i`.
fn hazard_at_exec(mysql: bool, ts: &Vec<SqlToken>, i: usize, Ghost(dialect): Ghost<Seq<char>>) -> (r: bool)
    requires
        i < ts.len(),
        mysql == (dialect == "mysql"@),
    ensures
        r == hazard_at(dialect, ts@, i as int),
{
    if token_is_word(&ts[i], &SqlKeyword::Granted) {
        let b = next_solid(ts, i + 1);
        if b < ts.len() && token_is_word(&ts[b], &SqlKeyword::By) {
            let n = next_solid(ts, b + 1);
            if !(n < ts.len() && token_is_ident(&ts[n])) {
                return true;
            }
        }
    }
    if token_is_word(&ts[i], &SqlKeyword::For) {
        let c = next_solid(ts, i + 1);
        if c < ts.len() && token_is_word(&ts[c], &SqlKeyword::Channel) {
            let n = next_solid(ts, c + 1);
            if !object_name_from(ts, n) {
                return true;
            }
        }
    }
    mysql && token_is_word(&ts[i], &SqlKeyword::Div)
}

/// Whether `sql` is among the texts that the parser may not take in the
/// given dialect (see `parse_hazard`).
pub fn parse_hazard_present(dialect: SqlDialect, sql: &str) -> (r: bool)
    ensures
        r == parse_hazard(dialect_name_spec(dialect), sql@),
{
    let name = dialect.name();
    let mysql = crate::text::str_eq(name, "mysql");
    match tokenize(name, sql) {
        None => false,
        Some(ts) => {
            let mut i: usize = 0;
            while i < ts.len()
                invariant
                    i <= ts@.len(),
                    mysql == (name@ == "mysql"@),
                    name@ == dialect_name_spec(dialect),
                    sqlparser_tokens(name@, sql@) == Some(ts@),
                    forall|j: int| 0 <= j < i ==> !hazard_at(name@, ts@, j),
                decreases ts.len() - i,
            {
                if hazard_at_exec(mysql, &ts, i, Ghost(name@)) {
                    assert(tokens_hazard(name@, ts@));
                    return true;
                }
                i = i + 1;
            }
            false
        },
    }
}

/// sqlparser's `dialect_from_str` and `Parser::parse_sql`: the statements
/// of `sql` in the lineage model, or the parser's error message. The outcome
/// is named by `sqlparser_parse`; every lower-case name that
/// `dialect_from_str` lists is known to it. `requires` leaves out the texts
/// on which the parser may panic (see `parse_hazard`).
#[verifier::external_body]
fn parse_sql(dialect: &str, sql: &str) -> (r: Option<Result<Vec<SqlStatement>, String>>)
    requires
        is_known_dialect_name(dialect@),
        !parse_hazard(dialect@, sql@),
    ensures
        parse_view(r) == sqlparser_parse(dialect@, sql@),
        r is Some,
{
    dialect_from_str(dialect).map(
        |d| {
            Parser::parse_sql(d.as_ref(), sql).map(|v| v.iter().map(statement_model).collect()).map_err(
                |e| e.to_string(),
            )
        },
    )
}

/// Parses `sql` in the given dialect into the lineage model.
pub fn parse_statements(dialect: SqlDialect, sql: &str) -> (r: Result<Vec<SqlStatement>, String>)
    requires
        !parse_hazard(dialect_name_spec(dialect), sql@),
    ensures
        Some(match r {
            Ok(v) => Ok(v@),
            Err(e) => Err(e@),
        }) == sqlparser_parse(dialect_name_spec(dialect), sql@),
{
    match parse_sql(dialect.name(), sql) {
        Some(r) => r,
        None => {
            assert(false);
            Err(String::new())
        },
    }
}

/// Only queries may run against the store: when the text parses (DuckDB
/// dialect) and any statement is not a query, it is refused; text that does
/// not parse is left to the database to judge.
pub open spec fn query_allowed_spec(parsed: Option<Result<Seq<SqlStatement>, Seq<char>>>) -> bool {
    match parsed {
        Some(Ok(stmts)) => forall|i: int| 0 <= i < stmts.len() ==> #[trigger] stmts[i] is Query,
        _ => true,
    }
}

/// The message a refused query gets.
pub open spec fn query_refusal_message() -> Seq<char> {
    "only SELECT statements are permitted"@
}

/// Refuses statements other than queries, before they reach the store. A
/// text the parser may not take (see `parse_hazard`) is refused too.
pub fn check_query_allowed(sql: &str) -> (r: Result<(), String>)
    ensures
        r is Ok <==> !parse_hazard("duckdb"@, sql@) && query_allowed_spec(
            sqlparser_parse("duckdb"@, sql@),
        ),
        r matches Err(m) ==> m@ == query_refusal_message(),
{
    if parse_hazard_present(SqlDialect::DuckDb, sql) {
        return Err(string_of("only SELECT statements are permitted"));
    }
    match parse_statements(SqlDialect::DuckDb, sql) {
        Ok(stmts) => {
            let mut i: usize = 0;
            while i < stmts.len()
                invariant
                    i <= stmts@.len(),
                    sqlparser_parse("duckdb"@, sql@) == Some(
                        Ok::<Seq<SqlStatement>, Seq<char>>(stmts@),
                    ),
                    forall|j: int| 0 <= j < i ==> #[trigger] stmts@[j] is Query,
                decreases stmts.len() - i,
            {
                match &stmts[i] {
                    SqlStatement::Query(_) => {},
                    _ => {
                        assert(!(stmts@[i as int] is Query));
                        return Err(string_of("only SELECT statements are permitted"));
                    },
                }
                i = i + 1;
            }
            Ok(())
        },
        Err(_) => Ok(()),
    }
}

} // verus!
