//! Editing the catalogue: new errors, new categories, modified properties.

use vstd::prelude::*;

use crate::idgen::{count_overflows, is_generated_id, IdError};
use crate::model::{
    severity_named, Category, CategoryId, ErrProp, ErrorEntry, ErrorId, IdGenerator,
    ProjectConfig, ProjectErrors, Severity, parse_severity,
};
use crate::numeric::{
    digits_of, format_u32, lemma_written_number_reads_back, parse_u32, parse_u32_text, zero_pad,
    NumError,
};

verus! {

broadcast use vstd::string::group_string_axioms;

/// Whether some category of `cats` has the identifier `k`.
pub open spec fn has_key(cats: Seq<(CategoryId, Category)>, k: Seq<char>) -> bool {
    exists|i: int| 0 <= i < cats.len() && (#[trigger] cats[i]).0@ == k
}

/// Whether no two categories of `cats` share an identifier.
pub open spec fn keys_distinct(cats: Seq<(CategoryId, Category)>) -> bool {
    forall|i: int, j: int|
        0 <= i < cats.len() && 0 <= j < cats.len() && i != j ==> (#[trigger] cats[i]).0@ != (
        #[trigger] cats[j]).0@
}

/// The identifier of the first category of `cats` named `name`.
pub open spec fn key_named(cats: Seq<(CategoryId, Category)>, name: Seq<char>) -> Option<Seq<char>>
    decreases cats.len(),
{
    if cats.len() == 0 {
        None
    } else if cats[0].1.name@ == name {
        Some(cats[0].0@)
    } else {
        key_named(cats.drop_first(), name)
    }
}

/// The category a new error is filed under when `requested` is asked for:
/// `requested` itself if it is an identifier, else the identifier of a
/// category named `requested`, else the default category `0`.
pub open spec fn resolve_category(cats: Seq<(CategoryId, Category)>, requested: Seq<char>) -> Seq<
    char,
> {
    if has_key(cats, requested) {
        requested
    } else {
        match key_named(cats, requested) {
            Some(k) => k,
            None => seq!['0'],
        }
    }
}

/// Whether `got` is where an error asked to be filed under `requested`
/// lands: `requested` itself when it is a category identifier; else the
/// identifier of a category named `requested`, when one is; else `0`. So
/// it is always a category identifier of `cats`, or `0`.
pub open spec fn files_under(cats: Seq<(CategoryId, Category)>, requested: Seq<char>, got: Seq<char>) -> bool {
    &&& has_key(cats, requested) ==> got == requested
    &&& !has_key(cats, requested) && (exists|i: int|
        0 <= i < cats.len() && (#[trigger] cats[i]).1.name@ == requested) ==> exists|i: int|
        0 <= i < cats.len() && (#[trigger] cats[i]).0@ == got && cats[i].1.name@ == requested
    &&& !has_key(cats, requested) && !(exists|i: int|
        0 <= i < cats.len() && (#[trigger] cats[i]).1.name@ == requested) ==> got == seq!['0']
}

proof fn lemma_key_named(cats: Seq<(CategoryId, Category)>, name: Seq<char>)
    ensures
        match key_named(cats, name) {
            Some(k) => exists|i: int|
                0 <= i < cats.len() && (#[trigger] cats[i]).0@ == k && cats[i].1.name@ == name,
            None => forall|i: int| 0 <= i < cats.len() ==> (#[trigger] cats[i]).1.name@ != name,
        },
    decreases cats.len(),
{
    if cats.len() > 0 {
        let t = cats.drop_first();
        lemma_key_named(t, name);
        if cats[0].1.name@ != name {
            match key_named(t, name) {
                Some(k) => {
                    let j = choose|j: int| 0 <= j < t.len() && (#[trigger] t[j]).0@ == k && t[j].1.name@ == name;
                    assert(cats[j + 1] == t[j]);
                },
                None => {
                    assert forall|i: int| 0 <= i < cats.len() implies (#[trigger] cats[i]).1.name@ != name by {
                        if i > 0 {
                            assert(cats[i] == t[i - 1]);
                        }
                    }
                },
            }
        } else {
            assert(cats[0] == cats[0]);
        }
    }
}

/// A new error is filed under the category asked for when it exists, else
/// under the category of that name, else under `0`: never under a text
/// that is neither a category identifier nor `0`.
pub proof fn lemma_filed_under_a_category(cats: Seq<(CategoryId, Category)>, requested: Seq<char>)
    ensures
        files_under(cats, requested, resolve_category(cats, requested)),
        has_key(cats, resolve_category(cats, requested)) || resolve_category(cats, requested)
            == seq!['0'],
{
    lemma_key_named(cats, requested);
}

/// The largest category identifier that is a decimal number, if any.
pub open spec fn max_count_key(cats: Seq<(CategoryId, Category)>) -> Option<u32>
    decreases cats.len(),
{
    if cats.len() == 0 {
        None
    } else {
        let rest = max_count_key(cats.drop_last());
        match parse_u32_text(cats.last().0@, 10) {
            Ok(v) => match rest {
                None => Some(v),
                Some(m) => Some(if v > m { v } else { m }),
            },
            Err(_) => rest,
        }
    }
}

/// The identifier a new category gets: one more than the largest decimal
/// identifier, or `0` when there is none.
pub open spec fn next_category_key(cats: Seq<(CategoryId, Category)>) -> Seq<char> {
    match max_count_key(cats) {
        Some(m) => digits_of((m + 1) as nat, 10),
        None => seq!['0'],
    }
}

/// The identifier the next error is numbered after: the last one, or `0`.
pub open spec fn last_or_zero(last: Option<ErrorId>) -> Seq<char> {
    match last {
        Some(s) => s@,
        None => seq!['0'],
    }
}

/// The position of the first error with identifier `id`.
pub open spec fn first_with_id(errs: Seq<ErrorEntry>, id: Seq<char>) -> Option<int>
    decreases errs.len(),
{
    if errs.len() == 0 {
        None
    } else if errs[0].id@ == id {
        Some(0)
    } else {
        match first_with_id(errs.drop_first(), id) {
            Some(i) => Some(i + 1),
            None => None,
        }
    }
}

/// `e` with the property `prop` set to `value`; `None` when the property is
/// the severity and `value` names none.
pub open spec fn with_prop(e: ErrorEntry, prop: ErrProp, value: String) -> Option<ErrorEntry> {
    match prop {
        ErrProp::Name => Some(ErrorEntry { name: value, ..e }),
        ErrProp::Message => Some(ErrorEntry { message: value, ..e }),
        ErrProp::Hint => Some(ErrorEntry { hint: value, ..e }),
        ErrProp::Category => Some(ErrorEntry { category_id: value, ..e }),
        ErrProp::Severity => match severity_named(value@) {
            Some(s) => Some(ErrorEntry { severity: s, ..e }),
            None => None,
        },
    }
}

/// Whether `after` is `before` with, at position `i`, the property `prop`
/// set to `value` and every other field kept: the identifier always, the
/// name, message, hint and category unless `prop` is that one, and the
/// severity unless `prop` is the severity and `value` names one (then it is
/// that severity).
pub open spec fn sets_only(
    before: Seq<ErrorEntry>,
    after: Seq<ErrorEntry>,
    i: int,
    prop: ErrProp,
    value: String,
) -> bool {
    let o = before[i];
    let n = after[i];
    &&& 0 <= i < before.len()
    &&& after.len() == before.len()
    &&& forall|j: int| 0 <= j < before.len() && j != i ==> after[j] == before[j]
    &&& n.id == o.id
    &&& n.name == if prop is Name {
        value
    } else {
        o.name
    }
    &&& n.message == if prop is Message {
        value
    } else {
        o.message
    }
    &&& n.hint == if prop is Hint {
        value
    } else {
        o.hint
    }
    &&& n.category_id == if prop is Category {
        value
    } else {
        o.category_id
    }
    &&& n.severity == if prop is Severity {
        match severity_named(value@) {
            Some(v) => v,
            None => o.severity,
        }
    } else {
        o.severity
    }
}

/// Setting a property changes only that property: the entry `with_prop`
/// gives keeps every other field of `e`, and the property gets `value` (the
/// severity it names, for the severity; no entry when it names none).
pub proof fn lemma_with_prop_sets_one_field(e: ErrorEntry, prop: ErrProp, value: String)
    ensures
        match with_prop(e, prop, value) {
            None => prop is Severity && severity_named(value@) is None,
            Some(n) => sets_only(seq![e], seq![n], 0, prop, value),
        },
{
}

/// `first_with_id` finds the first error with identifier `id`: one with
/// that identifier, and none before it; `None` when no error has it.
pub proof fn lemma_first_with_id(errs: Seq<ErrorEntry>, id: Seq<char>)
    ensures
        match first_with_id(errs, id) {
            Some(i) => 0 <= i < errs.len() && errs[i].id@ == id && forall|j: int|
                0 <= j < i ==> (#[trigger] errs[j]).id@ != id,
            None => forall|j: int| 0 <= j < errs.len() ==> (#[trigger] errs[j]).id@ != id,
        },
    decreases errs.len(),
{
    if errs.len() > 0 {
        let t = errs.drop_first();
        lemma_first_with_id(t, id);
        assert forall|j: int| 1 <= j < errs.len() implies errs[j] == t[j - 1] by {}
        match first_with_id(t, id) {
            Some(k) => {
                if errs[0].id@ != id {
                    assert forall|j: int| 0 <= j < k + 1 implies (#[trigger] errs[j]).id@ != id by {
                        if j > 0 {
                            assert(errs[j] == t[j - 1]);
                        }
                    }
                }
            },
            None => {
                if errs[0].id@ != id {
                    assert forall|j: int| 0 <= j < errs.len() implies (#[trigger] errs[j]).id@
                        != id by {
                        if j > 0 {
                            assert(errs[j] == t[j - 1]);
                        }
                    }
                }
            },
        }
    }
}

fn zero_text() -> (r: String)
    ensures
        r@ == seq!['0'],
{
    proof {
        reveal_strlit("0");
    }
    "0".to_string()
}

impl ProjectErrors {
    /// Category identifiers are distinct.
    pub open spec fn wf(&self) -> bool {
        keys_distinct(self.categories@)
    }

    /// The catalogue of a new project: the default category `0`, named
    /// `general`, and no errors.
    pub fn initial() -> (r: ProjectErrors)
        ensures
            r.categories@.len() == 1,
            r.categories@[0].0@ == seq!['0'],
            r.categories@[0].1.name@ == "general"@,
            r.categories@[0].1.description@ == "Default category."@,
            r.banned_ids@.len() == 0,
            r.errors@.len() == 0,
            r.last_id is None,
            r.wf(),
    {
        let mut categories: Vec<(CategoryId, Category)> = Vec::new();
        categories.push(
            (
                zero_text(),
                Category { name: "general".to_string(), description: "Default category.".to_string() },
            ),
        );
        ProjectErrors { categories, banned_ids: Vec::new(), errors: Vec::new(), last_id: None }
    }

    /// Whether no two categories share an identifier.
    pub fn check_wf(&self) -> (r: bool)
        ensures
            r == self.wf(),
    {
        let n = self.categories.len();
        for i in 0..n
            invariant
                n == self.categories@.len(),
                forall|a: int, b: int|
                    0 <= a < i && 0 <= b < n && a != b ==> (#[trigger] self.categories@[a]).0@ != (
                    #[trigger] self.categories@[b]).0@,
        {
            for j in 0..n
                invariant
                    n == self.categories@.len(),
                    i < n,
                    forall|a: int, b: int|
                        0 <= a < i && 0 <= b < n && a != b ==> (#[trigger] self.categories@[a]).0@
                            != (#[trigger] self.categories@[b]).0@,
                    forall|b: int|
                        0 <= b < j && b != i ==> self.categories@[i as int].0@ != (
                        #[trigger] self.categories@[b]).0@,
            {
                if i != j && self.categories[i].0 == self.categories[j].0 {
                    assert(self.categories@[i as int].0@ == self.categories@[j as int].0@);
                    return false;
                }
            }
        }
        true
    }

    fn has_category(&self, k: &String) -> (r: bool)
        ensures
            r == has_key(self.categories@, k@),
    {
        for i in 0..self.categories.len()
            invariant
                forall|j: int| 0 <= j < i ==> (#[trigger] self.categories@[j]).0@ != k@,
        {
            if self.categories[i].0 == *k {
                assert(self.categories@[i as int].0@ == k@);
                return true;
            }
        }
        false
    }

    fn find_named(&self, name: &String) -> (r: Option<CategoryId>)
        ensures
            match r {
                Some(k) => key_named(self.categories@, name@) == Some(k@),
                None => key_named(self.categories@, name@) is None,
            },
    {
        let ghost cats = self.categories@;
        assert(cats.skip(0) =~= cats);
        for i in 0..self.categories.len()
            invariant
                cats == self.categories@,
                key_named(cats, name@) == key_named(cats.skip(i as int), name@),
        {
            assert(cats.skip(i as int).drop_first() =~= cats.skip(i + 1));
            if self.categories[i].1.name == *name {
                return Some(self.categories[i].0.clone());
            }
        }
        None
    }

    /// Files a new error under the next identifier of the project's
    /// generator, and makes that identifier the last one.
    pub fn new_error(
        &mut self,
        config: &ProjectConfig,
        name: String,
        category_id: CategoryId,
        severity: Severity,
        message: String,
        hint: String,
    ) -> (r: Result<(), IdError>)
        requires
            old(self).wf(),
            !count_overflows(config.id_generator, last_or_zero(old(self).last_id)),
        ensures
            final(self).wf(),
            match r {
                Err(e) => {
                    &&& *final(self) == *old(self)
                    &&& is_generated_id(
                        config.id_generator,
                        last_or_zero(old(self).last_id),
                        Err(e),
                    )
                },
                Ok(()) => {
                    let e = final(self).errors@.last();
                    &&& final(self).errors@ == old(self).errors@.push(e)
                    &&& is_generated_id(
                        config.id_generator,
                        last_or_zero(old(self).last_id),
                        Ok(e.id@),
                    )
                    &&& e.name == name
                    &&& e.category_id@ == resolve_category(old(self).categories@, category_id@)
                    &&& files_under(old(self).categories@, category_id@, e.category_id@)
                    &&& e.severity == severity
                    &&& e.message == message
                    &&& e.hint == hint
                    &&& final(self).last_id == Some(e.id)
                    &&& final(self).last_id == Some(
                        final(self).errors@[final(self).errors@.len() - 1].id,
                    )
                    &&& final(self).categories == old(self).categories
                    &&& final(self).banned_ids == old(self).banned_ids
                },
            },
    {
        proof {
            reveal_strlit("0");
            assert("0"@ =~= seq!['0']);
        }
        let next_id = match &self.last_id {
            Some(l) => config.id_generator.generate_id(l.as_str()),
            None => config.id_generator.generate_id("0"),
        };
        match next_id {
            Err(e) => Err(e),
            Ok(id) => {
                self.add_error(id, name, category_id, severity, message, hint);
                Ok(())
            },
        }
    }

    /// Files an error with the identifier `id`, and makes `id` the last one.
    pub fn add_error(
        &mut self,
        id: ErrorId,
        name: String,
        category_id: CategoryId,
        severity: Severity,
        message: String,
        hint: String,
    )
        requires
            old(self).wf(),
        ensures
            final(self).wf(),
            final(self).errors@ == old(self).errors@.push(
                ErrorEntry {
                    id: final(self).errors@.last().id,
                    name,
                    category_id: final(self).errors@.last().category_id,
                    severity,
                    message,
                    hint,
                },
            ),
            final(self).errors@.last().id == id,
            final(self).errors@.last().category_id@ == resolve_category(
                old(self).categories@,
                category_id@,
            ),
            files_under(old(self).categories@, category_id@, final(self).errors@.last().category_id@),
            final(self).last_id == Some(id),
            final(self).categories == old(self).categories,
            final(self).banned_ids == old(self).banned_ids,
    {
        let resolved = if self.has_category(&category_id) {
            category_id
        } else {
            match self.find_named(&category_id) {
                Some(k) => k,
                None => zero_text(),
            }
        };
        proof {
            lemma_filed_under_a_category(old(self).categories@, category_id@);
        }
        let last = id.clone();
        self.errors.push(ErrorEntry { id, name, category_id: resolved, severity, message, hint });
        self.last_id = Some(last);
    }

    fn max_key(&self) -> (r: Option<u32>)
        ensures
            r == max_count_key(self.categories@),
    {
        let ghost cats = self.categories@;
        let mut m: Option<u32> = None;
        for i in 0..self.categories.len()
            invariant
                cats == self.categories@,
                m == max_count_key(cats.take(i as int)),
        {
            assert(cats.take(i + 1).drop_last() =~= cats.take(i as int));
            match parse_u32(self.categories[i].0.as_str(), 10) {
                Ok(v) => {
                    m = match m {
                        None => Some(v),
                        Some(old_m) => Some(
                            if v > old_m {
                                v
                            } else {
                                old_m
                            },
                        ),
                    };
                },
                Err(_) => {},
            }
        }
        assert(cats.take(cats.len() as int) =~= cats);
        m
    }

    /// Adds a category under a new identifier, one more than the largest
    /// decimal identifier (or `0`), and returns that identifier.
    pub fn new_cathegory(&mut self, name: String, description: String) -> (r: CategoryId)
        requires
            max_count_key(old(self).categories@) != Some(u32::MAX),
        ensures
            r@ == next_category_key(old(self).categories@),
            !has_key(old(self).categories@, r@),
            final(self).categories@ == old(self).categories@.push((r, Category { name, description })),
            old(self).wf() ==> final(self).wf(),
            final(self).errors == old(self).errors,
            final(self).banned_ids == old(self).banned_ids,
            final(self).last_id == old(self).last_id,
    {
        let next_id = match self.max_key() {
            Some(m) => format_u32(m + 1, 10, 0),
            None => zero_text(),
        };
        proof {
            lemma_next_key_fresh(old(self).categories@);
        }
        let k = next_id.clone();
        self.categories.push((next_id, Category { name, description }));
        k
    }

    /// Sets one property of the first error with identifier `id`; does
    /// nothing when there is no such error, or when the property is the
    /// severity and `value` names none.
    pub fn modify_error(&mut self, id: &ErrorId, prop: ErrProp, value: String)
        ensures
            match first_with_id(old(self).errors@, id@) {
                None => *final(self) == *old(self),
                Some(i) => match with_prop(old(self).errors@[i], prop, value) {
                    None => *final(self) == *old(self),
                    Some(e) => {
                        &&& final(self).errors@ == old(self).errors@.update(i, e)
                        &&& final(self).categories == old(self).categories
                        &&& final(self).banned_ids == old(self).banned_ids
                        &&& final(self).last_id == old(self).last_id
                    },
                },
            },
            first_with_id(old(self).errors@, id@) matches Some(i) ==> sets_only(
                old(self).errors@,
                final(self).errors@,
                i,
                prop,
                value,
            ),
    {
        let ghost errs = self.errors@;
        assert(errs.skip(0) =~= errs);
        let mut i: usize = 0;
        while i < self.errors.len()
            invariant
                errs == self.errors@,
                *self == *old(self),
                i <= errs.len(),
                first_with_id(errs, id@) == match first_with_id(errs.skip(i as int), id@) {
                    Some(j) => Some(j + i),
                    None => None,
                },
            decreases errs.len() - i,
        {
            assert(errs.skip(i as int).drop_first() =~= errs.skip(i + 1));
            if self.errors[i].id == *id {
                assert(errs.skip(i as int)[0] == errs[i as int]);
                assert(first_with_id(errs, id@) == Some(i as int));
                let old_e = &self.errors[i];
                let e = match prop {
                    ErrProp::Name => ErrorEntry { name: value, ..copy_entry(old_e) },
                    ErrProp::Message => ErrorEntry { message: value, ..copy_entry(old_e) },
                    ErrProp::Hint => ErrorEntry { hint: value, ..copy_entry(old_e) },
                    ErrProp::Category => ErrorEntry { category_id: value, ..copy_entry(old_e) },
                    ErrProp::Severity => match parse_severity(value.as_str()) {
                        Some(s) => ErrorEntry { severity: s, ..copy_entry(old_e) },
                        None => {
                            return;
                        },
                    },
                };
                self.errors.set(i, e);
                return;
            }
            i = i + 1;
        }
        assert(errs.skip(i as int) =~= Seq::<ErrorEntry>::empty());
    }

    /// Whether `id` is among the banned identifiers.
    pub fn is_banned(&self, id: &ErrorId) -> (r: bool)
        ensures
            r == exists|j: int| 0 <= j < self.banned_ids@.len() && (#[trigger] self.banned_ids@[j])@ == id@,
    {
        for i in 0..self.banned_ids.len()
            invariant
                forall|j: int| 0 <= j < i ==> (#[trigger] self.banned_ids@[j])@ != id@,
        {
            if self.banned_ids[i] == *id {
                assert(self.banned_ids@[i as int]@ == id@);
                return true;
            }
        }
        false
    }

    /// The last identifier given to an error, if any.
    pub fn get_last(&self) -> (r: Option<ErrorId>)
        ensures
            r == self.last_id,
    {
        match &self.last_id {
            Some(s) => Some(s.clone()),
            None => None,
        }
    }
}

/// A field-by-field copy of an error entry.
pub fn copy_entry(e: &ErrorEntry) -> (r: ErrorEntry)
    ensures
        r == *e,
{
    ErrorEntry {
        id: e.id.clone(),
        name: e.name.clone(),
        category_id: e.category_id.clone(),
        severity: e.severity,
        message: e.message.clone(),
        hint: e.hint.clone(),
    }
}

proof fn lemma_max_bounds(cats: Seq<(CategoryId, Category)>, i: int, v: u32)
    requires
        0 <= i < cats.len(),
        parse_u32_text(cats[i].0@, 10) == Ok::<u32, NumError>(v),
    ensures
        max_count_key(cats) matches Some(m) && v <= m,
    decreases cats.len(),
{
    if i < cats.len() - 1 {
        lemma_max_bounds(cats.drop_last(), i, v);
    }
}

proof fn lemma_next_key_fresh(cats: Seq<(CategoryId, Category)>)
    requires
        max_count_key(cats) != Some(u32::MAX),
    ensures
        !has_key(cats, next_category_key(cats)),
{
    let k = next_category_key(cats);
    if has_key(cats, k) {
        let i = choose|i: int| 0 <= i < cats.len() && (#[trigger] cats[i]).0@ == k;
        match max_count_key(cats) {
            Some(m) => {
                lemma_written_number_reads_back((m + 1) as u32, 10, 0);
                assert(zero_pad(digits_of((m + 1) as nat, 10), 0) == k);
                lemma_max_bounds(cats, i, (m + 1) as u32);
            },
            None => {
                lemma_written_number_reads_back(0, 10, 0);
                assert(zero_pad(digits_of(0, 10), 0) =~= k);
                lemma_max_bounds(cats, i, 0);
            },
        }
    }
}


impl ProjectConfig {
    /// The folder that holds a project's files.
    pub const FOLDER_NAME: &'static str = ".newerr";

    /// The folder, inside `FOLDER_NAME`, that holds the project's templates.
    pub const TEMPLATE_FOLDER_NAME: &'static str = "templates";

    /// The settings file.
    pub const CONFIG_FILE_NAME: &'static str = "config.toml";

    /// The catalogue file.
    pub const ERRORS_FILE_NAME: &'static str = "errors.toml";

    /// The settings of a new project: output to `unknown`, documentation to
    /// `ERRORS.md`, four-digit hexadecimal counter, no package.
    pub fn initial() -> (r: ProjectConfig)
        ensures
            r.generated_errors_file_path@ == "unknown"@,
            r.generated_docs_file_path matches Some(p) && p@ == "ERRORS.md"@,
            r.id_generator == (IdGenerator::SequentialHex { digits: 4 }),
            r.package is None,
    {
        ProjectConfig {
            generated_errors_file_path: "unknown".to_string(),
            generated_docs_file_path: Some("ERRORS.md".to_string()),
            id_generator: IdGenerator::SequentialHex { digits: 4 },
            package: None,
        }
    }

    /// The package name used in generated code: the one asked for, else the
    /// project's, else `errors`.
    pub fn package_name(&self, requested: Option<String>) -> (r: String)
        ensures
            r@ == match requested {
                Some(p) => p@,
                None => match self.package {
                    Some(p) => p@,
                    None => "errors"@,
                },
            },
    {
        match requested {
            Some(p) => p,
            None => match &self.package {
                Some(p) => p.clone(),
                None => "errors".to_string(),
            },
        }
    }
}

} // verus!
