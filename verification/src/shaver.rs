//! Shavers turn source files into strands; the registry picks one by file
//! extension.
use std::path::PathBuf;
use vstd::prelude::*;

use crate::sql::{
    dialect_name_spec, extract_lineage, parse_hazard, parse_hazard_present, parse_statements,
    sqlparser_parse, strand_holds, SqlDialect,
};
use crate::strand::Strand;
use crate::text::{str_eq, string_of, string_views};

verus! {

#[verifier::external_type_specification]
#[verifier::external_body]
pub struct ExIoError(std::io::Error);

/// Why a source could not be shaved.
#[derive(Debug)]
pub enum ShaverError {
    /// The source could not be read.
    Io { path: PathBuf, source: std::io::Error },
    /// The source could not be parsed.
    Parse { path: PathBuf, message: String },
    Other(String),
}

/// A shaver reads one kind of source (chosen by file extension) and yields
/// the lineage in it. The caller reads the file and hands over its text.
pub trait Shaver: Send + Sync {
    fn name(&self) -> &str;

    fn extensions(&self) -> &[&str];

    fn shave(&self, input: &PathBuf, source: &str) -> Result<Strand, ShaverError>;
}

/// `PathBuf::clone`: the same path.
#[verifier::external_body]
fn copy_path(p: &PathBuf) -> (r: PathBuf)
    ensures
        r == *p,
{
    p.clone()
}

/// A registered shaver, with the name and the extensions it reported when
/// it was registered. A built-in SQL shaver also records its dialect, so
/// what it does is known exactly.
pub struct ShaverHandle {
    inner: Box<dyn Shaver>,
    name: String,
    extensions: Vec<String>,
    sql_dialect: Option<SqlDialect>,
}

impl ShaverHandle {
    /// The name the shaver reported.
    pub closed spec fn name_view(&self) -> Seq<char> {
        self.name@
    }

    /// The extensions the shaver reported, in order.
    pub closed spec fn extension_views(&self) -> Seq<Seq<char>> {
        string_views(self.extensions@)
    }

    /// The dialect, for the built-in SQL shaver; `None` for any other.
    pub closed spec fn sql_dialect(&self) -> Option<SqlDialect> {
        self.sql_dialect
    }

    /// Wraps a boxed shaver, recording the name and extensions it reports.
    /// What a user's shaver reports, and how it shaves, is up to its own
    /// code behind the trait object, so no clause speaks of it.
    pub fn new(shaver: Box<dyn Shaver>) -> (r: ShaverHandle)
        ensures
            r.sql_dialect() is None,
    {
        let name = string_of(shaver.name());
        let extensions = copy_strs(shaver.extensions());
        ShaverHandle { inner: shaver, name, extensions, sql_dialect: None }
    }

    /// The built-in SQL shaver for `dialect`: named `sql`, for `.sql` files.
    pub fn sql(dialect: SqlDialect) -> (r: ShaverHandle)
        ensures
            r.name_view() == "sql"@,
            r.extension_views() == seq!["sql"@],
            r.sql_dialect() == Some(dialect),
    {
        let shaver = SqlShaver::with_dialect(dialect);
        let extensions = copy_strs(shaver.sql_extensions());
        assert(string_views(extensions@) =~= seq!["sql"@]);
        ShaverHandle { inner: Box::new(shaver), name: string_of("sql"), extensions, sql_dialect: Some(dialect) }
    }

    /// The shaver's name.
    pub fn name(&self) -> (r: &str)
        ensures
            r@ == self.name_view(),
    {
        self.name.as_str()
    }

    /// The extensions the shaver is registered for.
    pub fn extensions(&self) -> (r: &Vec<String>)
        ensures
            string_views(r@) == self.extension_views(),
    {
        &self.extensions
    }

    /// The shaver behind the handle.
    pub fn shaver(&self) -> &dyn Shaver {
        &*self.inner
    }

    /// Shaves `source`, read from `input`, with this shaver. For the built-in
    /// SQL shaver the outcome is the one `sql_shave_outcome` describes.
    pub fn shave(&self, input: &PathBuf, source: &str) -> (r: Result<Strand, ShaverError>)
        ensures
            self.sql_dialect() matches Some(d) ==> sql_shave_outcome(d, *input, source@, r),
    {
        match self.sql_dialect {
            Some(d) => SqlShaver::with_dialect(d).shave(input, source),
            None => self.inner.shave(input, source),
        }
    }
}

/// The message for a text the SQL parser cannot take.
pub open spec fn unparsable_message() -> Seq<char> {
    "the SQL parser cannot handle this text"@
}

/// What shaving `source` from `input` as SQL in `dialect` gives: the
/// lineage of its statements, the parser's error, or, for a text the parser
/// cannot take (`parse_hazard`), a parse error saying so.
pub open spec fn sql_shave_outcome(
    dialect: SqlDialect,
    input: PathBuf,
    source: Seq<char>,
    r: Result<Strand, ShaverError>,
) -> bool {
    if parse_hazard(dialect_name_spec(dialect), source) {
        r matches Err(ShaverError::Parse { path, message }) && path == input && message@
            == unparsable_message()
    } else {
        match sqlparser_parse(dialect_name_spec(dialect), source) {
            Some(Ok(stmts)) => r matches Ok(strand) && strand.source_path == input && strand_holds(
                strand,
                stmts,
            ),
            Some(Err(msg)) => r matches Err(ShaverError::Parse { path, message }) && path == input
                && message@ == msg,
            None => false,
        }
    }
}

/// The built-in shaver for `.sql` files.
pub struct SqlShaver {
    pub dialect: SqlDialect,
}

impl SqlShaver {
    /// A shaver for the generic dialect.
    pub fn new() -> (r: Self)
        ensures
            r.dialect == SqlDialect::Generic,
    {
        SqlShaver { dialect: SqlDialect::Generic }
    }

    pub fn with_dialect(dialect: SqlDialect) -> (r: Self)
        ensures
            r.dialect == dialect,
    {
        SqlShaver { dialect }
    }

    /// The file extensions this shaver reads: only `sql`.
    pub fn sql_extensions(&self) -> (r: &[&str])
        ensures
            r@.len() == 1,
            r@[0]@ == "sql"@,
    {
        let exts: &[&str] = &["sql"];
        exts
    }

    /// Parses `source` in the shaver's dialect and collects the lineage of
    /// every statement into one strand for `input`; a parse failure is
    /// reported with the parser's message.
    pub fn shave_source(&self, input: &PathBuf, source: &str) -> (r: Result<Strand, ShaverError>)
        requires
            !parse_hazard(dialect_name_spec(self.dialect), source@),
        ensures
            match sqlparser_parse(dialect_name_spec(self.dialect), source@) {
                Some(Ok(stmts)) => r matches Ok(strand) && strand.source_path == *input
                    && strand_holds(strand, stmts),
                Some(Err(msg)) => r matches Err(ShaverError::Parse { path, message }) && path
                    == *input && message@ == msg,
                None => false,
            },
    {
        match parse_statements(self.dialect, source) {
            Ok(stmts) => Ok(extract_lineage(&stmts, copy_path(input))),
            Err(message) => Err(ShaverError::Parse { path: copy_path(input), message }),
        }
    }
}

impl Default for SqlShaver {
    fn default() -> (r: Self)
        ensures
            r.dialect == SqlDialect::Generic,
    {
        SqlShaver::new()
    }
}

impl Shaver for SqlShaver {
    fn name(&self) -> (r: &str)
        ensures
            r@ == "sql"@,
    {
        "sql"
    }

    fn extensions(&self) -> (r: &[&str])
        ensures
            r@.len() == 1,
            r@[0]@ == "sql"@,
    {
        self.sql_extensions()
    }

    /// Shaves the text as SQL; a text the parser cannot take (see
    /// `parse_hazard`) is refused with a parse error instead.
    fn shave(&self, input: &PathBuf, source: &str) -> (r: Result<Strand, ShaverError>)
        ensures
            sql_shave_outcome(self.dialect, *input, source@, r),
    {
        if parse_hazard_present(self.dialect, source) {
            return Err(
                ShaverError::Parse {
                    path: copy_path(input),
                    message: string_of("the SQL parser cannot handle this text"),
                },
            );
        }
        self.shave_source(input, source)
    }
}

/// The registered shavers by extension; a later registration for an
/// extension replaces an earlier one.
pub open spec fn registry_map(entries: Seq<(Seq<char>, int)>) -> Map<Seq<char>, int>
    decreases entries.len(),
{
    if entries.len() == 0 {
        Map::empty()
    } else {
        registry_map(entries.drop_last()).insert(entries.last().0, entries.last().1)
    }
}

/// Every position that `registry_map` gives is one that an entry holds.
proof fn lemma_registry_values_below(entries: Seq<(Seq<char>, int)>, n: int, e: Seq<char>)
    requires
        forall|j: int| 0 <= j < entries.len() ==> 0 <= #[trigger] entries[j].1 < n,
        registry_map(entries).contains_key(e),
    ensures
        0 <= registry_map(entries)[e] < n,
    decreases entries.len(),
{
    if entries.len() > 0 && entries.last().0 != e {
        assert forall|j: int| 0 <= j < entries.drop_last().len() implies 0
            <= #[trigger] entries.drop_last()[j].1 < n by {
            assert(entries.drop_last()[j] == entries[j]);
        }
        lemma_registry_values_below(entries.drop_last(), n, e);
    }
}

/// Shavers by file extension. Each registered shaver is kept once; the
/// extensions refer to it by position.
pub struct ShaverRegistry {
    shavers: Vec<ShaverHandle>,
    by_extension: Vec<(String, usize)>,
}

impl ShaverRegistry {
    /// Each registration of an extension, in order, with its shaver's position.
    pub closed spec fn entries(&self) -> Seq<(Seq<char>, int)> {
        self.by_extension@.map_values(|e: (String, usize)| (e.0@, e.1 as int))
    }

    /// For each extension, the position of its shaver among those
    /// registered.
    pub closed spec fn extension_map(&self) -> Map<Seq<char>, int> {
        registry_map(self.entries())
    }

    /// The registered shavers, in order of registration.
    pub closed spec fn shaver_seq(&self) -> Seq<ShaverHandle> {
        self.shavers@
    }

    /// Every extension refers to a registered shaver.
    pub closed spec fn wf(&self) -> bool {
        forall|i: int|
            0 <= i < self.by_extension@.len() ==> (#[trigger] self.by_extension@[i]).1
                < self.shavers@.len()
    }

    /// The position that any registered extension refers to lies within
    /// the shaver list, so an extension that a later registration leaves
    /// alone still yields the shaver it yielded before.
    pub proof fn positions_in_range(&self)
        requires
            self.wf(),
        ensures
            forall|e: Seq<char>|
                #[trigger] self.extension_map().contains_key(e) ==> 0 <= self.extension_map()[e]
                    < self.shaver_seq().len(),
    {
        let n = self.shavers@.len() as int;
        assert forall|j: int| 0 <= j < self.entries().len() implies 0 <= #[trigger] self.entries()[j].1
            < n by {
            assert(self.by_extension@[j].1 < self.shavers@.len());
        }
        assert forall|e: Seq<char>| #[trigger] self.extension_map().contains_key(e) implies 0
            <= self.extension_map()[e] < self.shaver_seq().len() by {
            lemma_registry_values_below(self.entries(), n, e);
        }
    }

    /// A registry with no shavers.
    pub fn new() -> (r: Self)
        ensures
            r.wf(),
            r.extension_map() == Map::<Seq<char>, int>::empty(),
            r.shaver_seq() == Seq::<ShaverHandle>::empty(),
    {
        let r = ShaverRegistry { shavers: Vec::new(), by_extension: Vec::new() };
        assert(r.entries() =~= Seq::<(Seq<char>, int)>::empty());
        r
    }

    /// Registers `shaver` for each of the given extensions, in order.
    pub fn register_extensions(&mut self, exts: &Vec<String>, shaver: ShaverHandle)
        requires
            old(self).wf(),
        ensures
            final(self).wf(),
            final(self).shaver_seq() == old(self).shaver_seq().push(shaver),
            final(self).extension_map() == registry_map(
                old(self).entries() + string_views(exts@).map_values(
                    |e: Seq<char>| (e, old(self).shaver_seq().len() as int),
                ),
            ),
            forall|e: Seq<char>|
                #[trigger] final(self).extension_map().contains_key(e) <==> (old(
                    self,
                ).extension_map().contains_key(e) || string_views(exts@).contains(e)),
    {
        let k = self.shavers.len();
        self.shavers.push(shaver);
        let ghost added = string_views(exts@).map_values(|e: Seq<char>| (e, k as int));
        let mut i: usize = 0;
        while i < exts.len()
            invariant
                i <= exts@.len(),
                k == old(self).shavers@.len(),
                self.shavers@ == old(self).shavers@.push(shaver),
                added == string_views(exts@).map_values(|e: Seq<char>| (e, k as int)),
                self.entries() == old(self).entries() + added.take(i as int),
                forall|j: int|
                    0 <= j < self.by_extension@.len() ==> (#[trigger] self.by_extension@[j]).1
                        < self.shavers@.len(),
            decreases exts.len() - i,
        {
            let ghost before = self.entries();
            self.by_extension.push((exts[i].clone(), k));
            assert(self.entries() =~= before.push((exts@[i as int]@, k as int)));
            assert(added.take(i + 1) =~= added.take(i as int).push((exts@[i as int]@, k as int)));
            assert(old(self).entries() + added.take(i + 1) =~= (old(self).entries() + added.take(
                i as int,
            )).push((exts@[i as int]@, k as int)));
            i = i + 1;
        }
        assert(added.take(exts.len() as int) =~= added);
        proof {
            lemma_registry_keys(old(self).entries(), added);
            assert forall|e: Seq<char>|
                #[trigger] self.extension_map().contains_key(e) <==> (old(
                    self,
                ).extension_map().contains_key(e) || string_views(exts@).contains(e)) by {
                if exists|j: int| 0 <= j < added.len() && added[j].0 == e {
                    let j = choose|j: int| 0 <= j < added.len() && added[j].0 == e;
                    assert(string_views(exts@)[j] == e);
                }
                if string_views(exts@).contains(e) {
                    let j = choose|j: int| 0 <= j < string_views(exts@).len() && string_views(exts@)[j] == e;
                    assert(added[j].0 == e);
                }
            }
        }
    }

    /// Registers `shaver` for every extension it reports: each of them now
    /// refers to it, and every other extension keeps its shaver.
    pub fn register(&mut self, shaver: Box<dyn Shaver>)
        requires
            old(self).wf(),
        ensures
            final(self).wf(),
            final(self).shaver_seq().len() == old(self).shaver_seq().len() + 1,
            forall|i: int|
                0 <= i < old(self).shaver_seq().len() ==> final(self).shaver_seq()[i] == old(
                    self,
                ).shaver_seq()[i],
            final(self).shaver_seq().last().sql_dialect() is None,
            final(self).extension_map() == registry_map(
                old(self).entries() + keyed(
                    final(self).shaver_seq().last().extension_views(),
                    old(self).shaver_seq().len() as int,
                ),
            ),
            forall|e: Seq<char>|
                #![trigger final(self).extension_map().contains_key(e)]
                final(self).shaver_seq().last().extension_views().contains(e) ==> final(self).extension_map().contains_key(e)
                    && final(self).extension_map()[e] == old(self).shaver_seq().len(),
            forall|e: Seq<char>|
                #![trigger final(self).extension_map().contains_key(e)]
                !final(self).shaver_seq().last().extension_views().contains(e) ==> (final(self).extension_map().contains_key(e)
                    == old(self).extension_map().contains_key(e) && (old(self).extension_map().contains_key(e)
                    ==> final(self).extension_map()[e] == old(self).extension_map()[e])),
            forall|e: Seq<char>|
                #![trigger old(self).extension_map().contains_key(e)]
                !final(self).shaver_seq().last().extension_views().contains(e) && old(self).extension_map().contains_key(e)
                    ==> final(self).shaver_seq()[final(self).extension_map()[e]] == old(self).shaver_seq()[old(self).extension_map()[e]],
    {
        proof {
            old(self).positions_in_range();
        }
        let handle = ShaverHandle::new(shaver);
        let exts = crate::sql::copy_strings(handle.extensions());
        let ghost h = handle;
        self.register_extensions(&exts, handle);
        proof {
            lemma_registry_append(old(self).entries(), string_views(exts@), old(self).shaver_seq().len() as int);
            assert forall|e: Seq<char>|
                #![trigger old(self).extension_map().contains_key(e)]
                !self.shaver_seq().last().extension_views().contains(e) && old(self).extension_map().contains_key(e)
                    implies self.shaver_seq()[self.extension_map()[e]] == old(self).shaver_seq()[old(self).extension_map()[e]] by {
                let k = old(self).shaver_seq().len() as int;
                let m = registry_map(old(self).entries() + keyed(string_views(exts@), k));
                assert(self.shaver_seq().last() == h);
                assert(!string_views(exts@).contains(e));
                assert(m.contains_key(e) && m[e] == old(self).extension_map()[e]);
                assert(self.extension_map() == m);
                assert(old(self).extension_map()[e] < k);
                assert(self.shaver_seq()[m[e]] == old(self).shaver_seq()[m[e]]);
            }
        }
    }

    /// A registry with the built-in SQL shaver of the generic dialect,
    /// named `sql`, for `.sql`.
    pub fn with_builtins() -> (r: Self)
        ensures
            r.wf(),
            r.extension_map() == map!["sql"@ => 0int],
            r.shaver_seq().len() == 1,
            r.shaver_seq()[0].sql_dialect() == Some(SqlDialect::Generic),
            r.shaver_seq()[0].name_view() == "sql"@,
    {
        let mut r = ShaverRegistry::new();
        let handle = ShaverHandle::sql(SqlDialect::Generic);
        let exts = crate::sql::copy_strings(handle.extensions());
        r.register_extensions(&exts, handle);
        proof {
            let added = string_views(exts@).map_values(|e: Seq<char>| (e, 0int));
            assert(added =~= seq![("sql"@, 0int)]);
            assert(Seq::<(Seq<char>, int)>::empty() + added =~= seq![("sql"@, 0int)]);
            assert(seq![("sql"@, 0int)].drop_last() =~= Seq::<(Seq<char>, int)>::empty());
            assert(r.extension_map() =~= map!["sql"@ => 0int]);
        }
        r
    }

    /// The registry with the built-in SQL shaver for `dialect`, named `sql`,
    /// registered for `.sql`, replacing any earlier one; other extensions
    /// keep their shaver.
    pub fn with_sql_dialect(self, dialect: SqlDialect) -> (r: Self)
        requires
            self.wf(),
        ensures
            r.wf(),
            r.shaver_seq().len() == self.shaver_seq().len() + 1,
            forall|i: int| 0 <= i < self.shaver_seq().len() ==> r.shaver_seq()[i] == self.shaver_seq()[i],
            r.extension_map() == self.extension_map().insert("sql"@, self.shaver_seq().len() as int),
            r.shaver_seq().last().sql_dialect() == Some(dialect),
            r.shaver_seq().last().name_view() == "sql"@,
    {
        let mut r = self;
        let handle = ShaverHandle::sql(dialect);
        let exts = crate::sql::copy_strings(handle.extensions());
        let ghost before = r.entries();
        let ghost k = r.shavers@.len() as int;
        r.register_extensions(&exts, handle);
        proof {
            let added = string_views(exts@).map_values(|e: Seq<char>| (e, k));
            assert(added =~= seq![("sql"@, k)]);
            assert(before + added =~= before.push(("sql"@, k)));
            assert((before + added).drop_last() =~= before);
        }
        r
    }

    /// The shaver registered for `ext`, if any.
    pub fn for_extension(&self, ext: &str) -> (r: Option<&ShaverHandle>)
        requires
            self.wf(),
        ensures
            r matches Some(s) ==> self.extension_map().contains_key(ext@) && *s == self.shaver_seq()[
                self.extension_map()[ext@]],
            r is None ==> !self.extension_map().contains_key(ext@),
    {
        let mut i = self.by_extension.len();
        assert(self.entries().take(i as int) =~= self.entries());
        assert(self.entries().take(0) =~= Seq::<(Seq<char>, int)>::empty());
        while i > 0
            invariant
                i <= self.by_extension@.len(),
                self.wf(),
                registry_map(self.entries()).contains_key(ext@) == registry_map(
                    self.entries().take(i as int),
                ).contains_key(ext@),
                registry_map(self.entries()).contains_key(ext@) ==> registry_map(self.entries())[ext@]
                    == registry_map(self.entries().take(i as int))[ext@],
            decreases i,
        {
            assert(self.entries().take(i as int).drop_last() =~= self.entries().take(i - 1));
            assert(self.entries().take(i as int).last() == self.entries()[i - 1]);
            let (e, k) = &self.by_extension[i - 1];
            if str_eq(e.as_str(), ext) {
                return Some(&self.shavers[*k]);
            }
            i = i - 1;
        }
        None
    }
}

impl Default for ShaverRegistry {
    fn default() -> (r: Self)
        ensures
            r.wf(),
            r.extension_map() == Map::<Seq<char>, int>::empty(),
            r.shaver_seq() == Seq::<ShaverHandle>::empty(),
    {
        ShaverRegistry::new()
    }
}

/// Copies of the given string slices.
fn copy_strs(v: &[&str]) -> (r: Vec<String>)
    ensures
        string_views(r@) == v@.map_values(|s: &str| s@),
{
    let mut out: Vec<String> = Vec::new();
    let mut i: usize = 0;
    while i < v.len()
        invariant
            i <= v@.len(),
            string_views(out@) == v@.take(i as int).map_values(|s: &str| s@),
        decreases v.len() - i,
    {
        let ghost before = out@;
        let c = crate::text::string_of(v[i]);
        out.push(c);
        assert(out@ =~= before.push(c));
        assert(v@.take(i + 1) =~= v@.take(i as int).push(v@[i as int]));
        assert(string_views(out@) =~= string_views(before).push(c@));
        assert(v@.take(i + 1).map_values(|s: &str| s@) =~= v@.take(i as int).map_values(
            |s: &str| s@,
        ).push(v@[i as int]@));
        i = i + 1;
    }
    assert(v@.take(v.len() as int) =~= v@);
    out
}

/// Each of `keys` paired with the shaver position `k`.
pub open spec fn keyed(keys: Seq<Seq<char>>, k: int) -> Seq<(Seq<char>, int)> {
    keys.map_values(|x: Seq<char>| (x, k))
}

/// After appending `keys`, all for shaver `k`: each of them refers to `k`,
/// and every other key keeps its entry.
proof fn lemma_registry_append(entries: Seq<(Seq<char>, int)>, keys: Seq<Seq<char>>, k: int)
    ensures
        forall|e: Seq<char>|
            keys.contains(e) ==> #[trigger] registry_map(
                entries + keyed(keys, k),
            ).contains_key(e) && registry_map(entries + keyed(keys, k))[e]
                == k,
        forall|e: Seq<char>|
            !keys.contains(e) ==> (#[trigger] registry_map(
                entries + keyed(keys, k),
            ).contains_key(e) == registry_map(entries).contains_key(e) && (registry_map(
                entries,
            ).contains_key(e) ==> registry_map(entries + keyed(keys, k))[e]
                == registry_map(entries)[e])),
    decreases keys.len(),
{
    let all = entries + keyed(keys, k);
    if keys.len() == 0 {
        assert(keyed(keys, k) =~= Seq::<(Seq<char>, int)>::empty());
        assert(all =~= entries);
    } else {
        let prev = keys.drop_last();
        lemma_registry_append(entries, prev, k);
        let pall = entries + keyed(prev, k);
        assert(keyed(keys, k) =~= keyed(prev, k).push((keys.last(), k)));
        assert(all.drop_last() =~= pall);
        assert(all.last() == (keys.last(), k));
        assert(registry_map(all) == registry_map(pall).insert(keys.last(), k));
        assert forall|e: Seq<char>| keys.contains(e) implies #[trigger] registry_map(all).contains_key(e)
            && registry_map(all)[e] == k by {
            if e != keys.last() {
                let j = choose|j: int| 0 <= j < keys.len() && keys[j] == e;
                assert(prev[j] == e);
            }
        }
        assert forall|e: Seq<char>| !keys.contains(e) implies (#[trigger] registry_map(all).contains_key(e)
            == registry_map(entries).contains_key(e) && (registry_map(entries).contains_key(e)
            ==> registry_map(all)[e] == registry_map(entries)[e])) by {
            assert(keys[keys.len() - 1] == keys.last());
            if prev.contains(e) {
                let j = choose|j: int| 0 <= j < prev.len() && prev[j] == e;
                assert(keys[j] == e);
            }
        }
    }
}

/// The keys of a registry after appending entries: the old keys and the
/// appended ones.
proof fn lemma_registry_keys(entries: Seq<(Seq<char>, int)>, added: Seq<(Seq<char>, int)>)
    ensures
        forall|e: Seq<char>|
            #[trigger] registry_map(entries + added).contains_key(e) <==> (registry_map(
                entries,
            ).contains_key(e) || exists|j: int| 0 <= j < added.len() && added[j].0 == e),
    decreases added.len(),
{
    if added.len() == 0 {
        assert(entries + added =~= entries);
    } else {
        lemma_registry_keys(entries, added.drop_last());
        assert((entries + added).drop_last() =~= entries + added.drop_last());
        assert((entries + added).last() == added.last());
        assert(registry_map(entries + added) == registry_map(entries + added.drop_last()).insert(
            added.last().0,
            added.last().1,
        ));
        assert forall|e: Seq<char>|
            #[trigger] registry_map(entries + added).contains_key(e) <==> (registry_map(
                entries,
            ).contains_key(e) || exists|j: int| 0 <= j < added.len() && added[j].0 == e) by {
            if exists|j: int| 0 <= j < added.drop_last().len() && added.drop_last()[j].0 == e {
                let j = choose|j: int| 0 <= j < added.drop_last().len() && added.drop_last()[j].0 == e;
                assert(added[j].0 == e);
            }
            if exists|j: int| 0 <= j < added.len() && added[j].0 == e {
                let j = choose|j: int| 0 <= j < added.len() && added[j].0 == e;
                if j < added.len() - 1 {
                    assert(added.drop_last()[j].0 == e);
                }
            }
        }
    }
}

} // verus!
