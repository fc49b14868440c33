//! Rendering the catalogue through a template.

use vstd::prelude::*;

use crate::model::{
    severity_text, Category, CategoryId, ErrorEntry, Piece, Placeholder, ProjectErrors, Section,
    Template,
};
use crate::project::{copy_entry, has_key, keys_distinct};
use crate::text::{blank, chars_of, is_blank, push_all, replace_all, replace_chars, string_of};

verus! {

/// The value an optional reference points to.
pub open spec fn opt<T>(o: Option<&T>) -> Option<T> {
    match o {
        Some(x) => Some(*x),
        None => None,
    }
}

/// The name of the current category, or nothing outside a category.
pub open spec fn cat_name(cat: Option<Category>) -> Seq<char> {
    match cat {
        Some(c) => c.name@,
        None => seq![],
    }
}

/// The description of the current category, or nothing.
pub open spec fn cat_description(cat: Option<Category>) -> Seq<char> {
    match cat {
        Some(c) => c.description@,
        None => seq![],
    }
}

/// The identifier of the first error of a category, or nothing.
pub open spec fn first_id(errs: Seq<ErrorEntry>) -> Seq<char> {
    if errs.len() > 0 {
        errs[0].id@
    } else {
        seq![]
    }
}

/// The identifier of the last error of a category, or nothing.
pub open spec fn end_id(errs: Seq<ErrorEntry>) -> Seq<char> {
    if errs.len() > 0 {
        errs.last().id@
    } else {
        seq![]
    }
}

/// A field of the current error, or nothing outside an error.
pub open spec fn err_text(err: Option<ErrorEntry>, ph: Placeholder) -> Seq<char> {
    match err {
        None => seq![],
        Some(e) => match ph {
            Placeholder::Id => e.id@,
            Placeholder::Name => e.name@,
            Placeholder::Message => e.message@,
            Placeholder::Hint => e.hint@,
            _ => severity_text(e.severity),
        },
    }
}

/// `text` with every placeholder replaced by its value, in this order:
/// package, category, category description, first and last error
/// identifier of the category, then the error's identifier, name, message,
/// hint and severity.
pub open spec fn render_text(
    text: Seq<char>,
    package: Seq<char>,
    cat: Option<Category>,
    errs: Seq<ErrorEntry>,
    err: Option<ErrorEntry>,
) -> Seq<char> {
    let s = replace_all(text, "{{package}}"@, package);
    let s = replace_all(s, "{{category}}"@, cat_name(cat));
    let s = replace_all(s, "{{category_description}}"@, cat_description(cat));
    let s = replace_all(s, "{{category_id_start}}"@, first_id(errs));
    let s = replace_all(s, "{{category_id_end}}"@, end_id(errs));
    let s = replace_all(s, "{{id}}"@, err_text(err, Placeholder::Id));
    let s = replace_all(s, "{{name}}"@, err_text(err, Placeholder::Name));
    let s = replace_all(s, "{{message}}"@, err_text(err, Placeholder::Message));
    let s = replace_all(s, "{{hint}}"@, err_text(err, Placeholder::Hint));
    replace_all(s, "{{severity}}"@, err_text(err, Placeholder::Severity))
}

/// The value of a placeholder other than the package.
pub open spec fn placeholder_text(
    ph: Placeholder,
    cat: Option<Category>,
    errs: Seq<ErrorEntry>,
    err: Option<ErrorEntry>,
) -> Seq<char> {
    match ph {
        Placeholder::Category => cat_name(cat),
        Placeholder::CategoryDescription => cat_description(cat),
        Placeholder::CategoryIdStart => first_id(errs),
        Placeholder::CategoryIdEnd => end_id(errs),
        Placeholder::Package => seq![],
        _ => err_text(err, ph),
    }
}

/// Whether a piece is left out: its placeholder (never the package) is
/// blank.
pub open spec fn skips(
    piece: Piece,
    cat: Option<Category>,
    errs: Seq<ErrorEntry>,
    err: Option<ErrorEntry>,
) -> bool {
    match piece.skip_if_empty {
        None => false,
        Some(Placeholder::Package) => false,
        Some(ph) => is_blank(placeholder_text(ph, cat, errs, err)),
    }
}

/// The rendered pieces, each unless it is left out, each followed by the
/// rendered `end` (rendered outside any error).
pub open spec fn render_pieces(
    pieces: Seq<Piece>,
    end: Seq<char>,
    package: Seq<char>,
    cat: Option<Category>,
    errs: Seq<ErrorEntry>,
    err: Option<ErrorEntry>,
) -> Seq<char>
    decreases pieces.len(),
{
    if pieces.len() == 0 {
        seq![]
    } else {
        render_pieces(pieces.drop_last(), end, package, cat, errs, err) + if skips(
            pieces.last(),
            cat,
            errs,
            err,
        ) {
            seq![]
        } else {
            render_text(pieces.last().text@, package, cat, errs, err) + render_text(
                end,
                package,
                cat,
                errs,
                None,
            )
        }
    }
}

/// The first `n` errors of a category, each rendered through the error
/// pieces.
pub open spec fn render_errors(
    sec: Section,
    package: Seq<char>,
    cat: Option<Category>,
    errs: Seq<ErrorEntry>,
    n: nat,
) -> Seq<char>
    decreases n,
{
    if n == 0 {
        seq![]
    } else {
        render_errors(sec, package, cat, errs, (n - 1) as nat) + render_pieces(
            sec.error@,
            sec.end@,
            package,
            cat,
            errs,
            Some(errs[n - 1]),
        )
    }
}

/// The category with identifier `k` (the first one, should several share it).
pub open spec fn category_of(cats: Seq<(CategoryId, Category)>, k: Seq<char>) -> Option<Category>
    decreases cats.len(),
{
    if cats.len() == 0 {
        None
    } else if cats[0].0@ == k {
        Some(cats[0].1)
    } else {
        category_of(cats.drop_first(), k)
    }
}

/// The category identifiers of `errs`, in the order of their first error.
pub open spec fn group_keys(errs: Seq<ErrorEntry>) -> Seq<Seq<char>>
    decreases errs.len(),
{
    if errs.len() == 0 {
        seq![]
    } else {
        let ks = group_keys(errs.drop_last());
        if ks.contains(errs.last().category_id@) {
            ks
        } else {
            ks.push(errs.last().category_id@)
        }
    }
}

/// The errors of `errs` filed under `k`, in order.
pub open spec fn members(errs: Seq<ErrorEntry>, k: Seq<char>) -> Seq<ErrorEntry>
    decreases errs.len(),
{
    if errs.len() == 0 {
        seq![]
    } else {
        members(errs.drop_last(), k) + if errs.last().category_id@ == k {
            seq![errs.last()]
        } else {
            seq![]
        }
    }
}

/// One category of a section: its pieces, `category_end`, then its errors.
pub open spec fn render_group(
    sec: Section,
    package: Seq<char>,
    cats: Seq<(CategoryId, Category)>,
    k: Seq<char>,
    errs: Seq<ErrorEntry>,
) -> Seq<char> {
    let cat = category_of(cats, k);
    render_pieces(sec.category@, sec.end@, package, cat, errs, None) + render_text(
        sec.category_end@,
        package,
        cat,
        errs,
        None,
    ) + render_errors(sec, package, cat, errs, errs.len())
}

/// The categories `keys` of a section, in order.
pub open spec fn render_groups(
    sec: Section,
    package: Seq<char>,
    pe: ProjectErrors,
    keys: Seq<Seq<char>>,
) -> Seq<char>
    decreases keys.len(),
{
    if keys.len() == 0 {
        seq![]
    } else {
        render_groups(sec, package, pe, keys.drop_last()) + render_group(
            sec,
            package,
            pe.categories@,
            keys.last(),
            members(pe.errors@, keys.last()),
        )
    }
}

/// A section: its prefix, every category that has errors, its suffix.
pub open spec fn render_section(sec: Section, package: Seq<char>, pe: ProjectErrors) -> Seq<char> {
    render_text(sec.prefix@, package, None, seq![], None) + render_groups(
        sec,
        package,
        pe,
        group_keys(pe.errors@),
    ) + render_text(sec.suffix@, package, None, seq![], None)
}

/// The sections, in order.
pub open spec fn render_sections(secs: Seq<Section>, package: Seq<char>, pe: ProjectErrors) -> Seq<
    char,
>
    decreases secs.len(),
{
    if secs.len() == 0 {
        seq![]
    } else {
        render_sections(secs.drop_last(), package, pe) + render_section(secs.last(), package, pe)
    }
}

/// The whole document: header, sections, footer.
pub open spec fn render_template(t: Template, package: Seq<char>, pe: ProjectErrors) -> Seq<char> {
    render_text(t.header@, package, None, seq![], None) + render_sections(t.sections@, package, pe)
        + render_text(t.footer@, package, None, seq![], None)
}

/// Replaces one placeholder, given as a literal, in `s`.
fn replace_lit(s: &Vec<char>, pat: &str, rep: &Vec<char>) -> (r: Vec<char>)
    requires
        pat@.len() > 0,
    ensures
        r@ == replace_all(s@, pat@, rep@),
{
    let p = chars_of(pat);
    replace_chars(s, &p, rep)
}

impl Template {
    /// `text` with every placeholder replaced by its value.
    pub fn replace_in_text(
        text: &str,
        package: &str,
        cat: Option<&Category>,
        errs: &Vec<ErrorEntry>,
        err: Option<&ErrorEntry>,
    ) -> (r: Vec<char>)
        ensures
            r@ == render_text(text@, package@, opt(cat), errs@, opt(err)),
    {
        proof {
            reveal_strlit("{{package}}");
            reveal_strlit("{{category}}");
            reveal_strlit("{{category_description}}");
            reveal_strlit("{{category_id_start}}");
            reveal_strlit("{{category_id_end}}");
            reveal_strlit("{{id}}");
            reveal_strlit("{{name}}");
            reveal_strlit("{{message}}");
            reveal_strlit("{{hint}}");
            reveal_strlit("{{severity}}");
        }
        let s = chars_of(text);
        let s = replace_lit(&s, "{{package}}", &chars_of(package));
        let (name, description) = match cat {
            Some(c) => (chars_of(c.name.as_str()), chars_of(c.description.as_str())),
            None => (Vec::new(), Vec::new()),
        };
        let s = replace_lit(&s, "{{category}}", &name);
        let s = replace_lit(&s, "{{category_description}}", &description);
        let first = if errs.len() > 0 {
            chars_of(errs[0].id.as_str())
        } else {
            Vec::new()
        };
        let s = replace_lit(&s, "{{category_id_start}}", &first);
        let last = if errs.len() > 0 {
            chars_of(errs[errs.len() - 1].id.as_str())
        } else {
            Vec::new()
        };
        let s = replace_lit(&s, "{{category_id_end}}", &last);
        match err {
            Some(e) => {
                let s = replace_lit(&s, "{{id}}", &chars_of(e.id.as_str()));
                let s = replace_lit(&s, "{{name}}", &chars_of(e.name.as_str()));
                let s = replace_lit(&s, "{{message}}", &chars_of(e.message.as_str()));
                let s = replace_lit(&s, "{{hint}}", &chars_of(e.hint.as_str()));
                replace_lit(&s, "{{severity}}", &chars_of(e.severity.as_str()))
            },
            None => {
                let none: Vec<char> = Vec::new();
                let s = replace_lit(&s, "{{id}}", &none);
                let s = replace_lit(&s, "{{name}}", &none);
                let s = replace_lit(&s, "{{message}}", &none);
                let s = replace_lit(&s, "{{hint}}", &none);
                replace_lit(&s, "{{severity}}", &none)
            },
        }
    }
}


/// The category with identifier `k` in `cats`.
fn find_category<'a>(cats: &'a Vec<(CategoryId, Category)>, k: &String) -> (r: Option<&'a Category>)
    ensures
        opt(r) == category_of(cats@, k@),
{
    let ghost all = cats@;
    assert(all.skip(0) =~= all);
    for i in 0..cats.len()
        invariant
            all == cats@,
            category_of(all, k@) == category_of(all.skip(i as int), k@),
    {
        assert(all.skip(i as int).drop_first() =~= all.skip(i + 1));
        if cats[i].0 == *k {
            return Some(&cats[i].1);
        }
    }
    None
}

impl Template {
    /// The value of a placeholder other than the package.
    pub fn placeholder_value(
        ph: Placeholder,
        cat: Option<&Category>,
        errs: &Vec<ErrorEntry>,
        err: Option<&ErrorEntry>,
    ) -> (r: Vec<char>)
        requires
            ph != Placeholder::Package,
        ensures
            r@ == placeholder_text(ph, opt(cat), errs@, opt(err)),
    {
        match ph {
            Placeholder::Category => match cat {
                Some(c) => chars_of(c.name.as_str()),
                None => Vec::new(),
            },
            Placeholder::CategoryDescription => match cat {
                Some(c) => chars_of(c.description.as_str()),
                None => Vec::new(),
            },
            Placeholder::CategoryIdStart => if errs.len() > 0 {
                chars_of(errs[0].id.as_str())
            } else {
                Vec::new()
            },
            Placeholder::CategoryIdEnd => if errs.len() > 0 {
                chars_of(errs[errs.len() - 1].id.as_str())
            } else {
                Vec::new()
            },
            _ => match err {
                None => Vec::new(),
                Some(e) => match ph {
                    Placeholder::Id => chars_of(e.id.as_str()),
                    Placeholder::Name => chars_of(e.name.as_str()),
                    Placeholder::Message => chars_of(e.message.as_str()),
                    Placeholder::Hint => chars_of(e.hint.as_str()),
                    _ => chars_of(e.severity.as_str()),
                },
            },
        }
    }

    /// Whether a piece is left out: it names a placeholder, not the package,
    /// whose value is blank (`trim().is_empty()`).
    pub fn should_skip(
        piece: &Piece,
        cat: Option<&Category>,
        errs: &Vec<ErrorEntry>,
        err: Option<&ErrorEntry>,
    ) -> (r: bool)
        ensures
            r == skips(*piece, opt(cat), errs@, opt(err)),
    {
        let placeholder = match piece.skip_if_empty {
            None => {
                return false;
            },
            Some(p) => p,
        };
        if placeholder == Placeholder::Package {
            return false;
        }
        blank(&Self::placeholder_value(placeholder, cat, errs, err))
    }

    fn emit_pieces(
        out: &mut Vec<char>,
        pieces: &Vec<Piece>,
        end: &str,
        package: &str,
        cat: Option<&Category>,
        errs: &Vec<ErrorEntry>,
        err: Option<&ErrorEntry>,
    )
        ensures
            final(out)@ == old(out)@ + render_pieces(
                pieces@,
                end@,
                package@,
                opt(cat),
                errs@,
                opt(err),
            ),
    {
        let ghost start = out@;
        let end_text = Self::replace_in_text(end, package, cat, errs, None);
        assert(pieces@.take(0) =~= Seq::<Piece>::empty());
        assert(start + Seq::<char>::empty() =~= start);
        for i in 0..pieces.len()
            invariant
                out@ == start + render_pieces(
                    pieces@.take(i as int),
                    end@,
                    package@,
                    opt(cat),
                    errs@,
                    opt(err),
                ),
                end_text@ == render_text(end@, package@, opt(cat), errs@, None),
        {
            let piece = &pieces[i];
            assert(pieces@.take(i + 1).drop_last() =~= pieces@.take(i as int));
            assert(pieces@.take(i + 1).last() == pieces@[i as int]);
            if !Self::should_skip(piece, cat, errs, err) {
                let t = Self::replace_in_text(piece.text.as_str(), package, cat, errs, err);
                push_all(out, &t);
                push_all(out, &end_text);
                assert(out@ =~= start + render_pieces(
                    pieces@.take(i + 1),
                    end@,
                    package@,
                    opt(cat),
                    errs@,
                    opt(err),
                ));
            } else {
                assert(out@ =~= start + render_pieces(
                    pieces@.take(i + 1),
                    end@,
                    package@,
                    opt(cat),
                    errs@,
                    opt(err),
                ));
            }
        }
        assert(pieces@.take(pieces.len() as int) =~= pieces@);
    }
}


impl Template {
    /// Renders the catalogue: the header, each section, then the footer.
    pub fn write_down(&self, package: &str, errors: &ProjectErrors) -> (r: String)
        requires
            errors.wf(),
        ensures
            r@ == render_template(*self, package@, *errors),
    {
        let none: Vec<ErrorEntry> = Vec::new();
        let mut out: Vec<char> = Vec::new();
        let head = Self::replace_in_text(self.header.as_str(), package, None, &none, None);
        push_all(&mut out, &head);
        let ghost start = out@;
        assert(self.sections@.take(0) =~= Seq::<Section>::empty());
        assert(start + Seq::<char>::empty() =~= start);
        for i in 0..self.sections.len()
            invariant
                out@ == start + render_sections(self.sections@.take(i as int), package@, *errors),
        {
            assert(self.sections@.take(i + 1).drop_last() =~= self.sections@.take(i as int));
            Self::emit_section(&mut out, &self.sections[i], package, errors);
            assert(out@ =~= start + render_sections(
                self.sections@.take(i + 1),
                package@,
                *errors,
            ));
        }
        assert(self.sections@.take(self.sections.len() as int) =~= self.sections@);
        let foot = Self::replace_in_text(self.footer.as_str(), package, None, &none, None);
        push_all(&mut out, &foot);
        assert(out@ =~= render_template(*self, package@, *errors));
        string_of(&out)
    }

    fn emit_section(out: &mut Vec<char>, sec: &Section, package: &str, errors: &ProjectErrors)
        ensures
            final(out)@ == old(out)@ + render_section(*sec, package@, *errors),
    {
        let none: Vec<ErrorEntry> = Vec::new();
        let ghost start = out@;
        let prefix = Self::replace_in_text(sec.prefix.as_str(), package, None, &none, None);
        push_all(out, &prefix);
        let ghost mid = out@;
        let grouped = Self::group_by_category(errors);
        let ghost keys = group_keys(errors.errors@);
        assert(keys.take(0) =~= Seq::<Seq<char>>::empty());
        assert(mid + Seq::<char>::empty() =~= mid);
        for k in 0..grouped.len()
            invariant
                grouped@.len() == keys.len(),
                keys == group_keys(errors.errors@),
                forall|j: int|
                    0 <= j < keys.len() ==> (#[trigger] grouped@[j]).0@ == keys[j] && grouped@[j].1@
                        == members(errors.errors@, keys[j]),
                out@ == mid + render_groups(*sec, package@, *errors, keys.take(k as int)),
        {
            let g = &grouped[k];
            assert(grouped@[k as int] == *g);
            let cat = find_category(&errors.categories, &g.0);
            Self::emit_pieces(out, &sec.category, sec.end.as_str(), package, cat, &g.1, None);
            let cend = Self::replace_in_text(sec.category_end.as_str(), package, cat, &g.1, None);
            push_all(out, &cend);
            Self::emit_errors(out, sec, package, cat, &g.1);
            assert(keys.take(k + 1).drop_last() =~= keys.take(k as int));
            assert(keys.take(k + 1).last() == keys[k as int]);
            assert(out@ =~= mid + render_groups(*sec, package@, *errors, keys.take(k + 1)));
        }
        assert(keys.take(keys.len() as int) =~= keys);
        let suffix = Self::replace_in_text(sec.suffix.as_str(), package, None, &none, None);
        push_all(out, &suffix);
        assert(out@ =~= start + render_section(*sec, package@, *errors));
    }

    fn emit_errors(
        out: &mut Vec<char>,
        sec: &Section,
        package: &str,
        cat: Option<&Category>,
        errs: &Vec<ErrorEntry>,
    )
        ensures
            final(out)@ == old(out)@ + render_errors(*sec, package@, opt(cat), errs@, errs@.len()),
    {
        let ghost start = out@;
        assert(start + Seq::<char>::empty() =~= start);
        for i in 0..errs.len()
            invariant
                out@ == start + render_errors(*sec, package@, opt(cat), errs@, i as nat),
        {
            Self::emit_pieces(out, &sec.error, sec.end.as_str(), package, cat, errs, Some(&errs[i]));
            assert(out@ =~= start + render_errors(*sec, package@, opt(cat), errs@, (i + 1) as nat));
        }
    }

    /// The errors grouped by category, in the order of each category's first
    /// error, each group in the errors' order.
    pub fn group_by_category(errors: &ProjectErrors) -> (r: Vec<(CategoryId, Vec<ErrorEntry>)>)
        ensures
            r@.len() == group_keys(errors.errors@).len(),
            forall|j: int|
                0 <= j < r@.len() ==> (#[trigger] r@[j]).0@ == group_keys(errors.errors@)[j]
                    && r@[j].1@ == members(errors.errors@, group_keys(errors.errors@)[j]),
    {
        let errs = &errors.errors;
        let mut keys: Vec<CategoryId> = Vec::new();
        for i in 0..errs.len()
            invariant
                keys@.len() == group_keys(errs@.take(i as int)).len(),
                forall|j: int|
                    0 <= j < keys@.len() ==> (#[trigger] keys@[j])@ == group_keys(
                        errs@.take(i as int),
                    )[j],
        {
            let ghost ks = group_keys(errs@.take(i as int));
            assert(errs@.take(i + 1).drop_last() =~= errs@.take(i as int));
            assert(errs@.take(i + 1).last() == errs@[i as int]);
            let k = &errs[i].category_id;
            let mut seen = false;
            for j in 0..keys.len()
                invariant
                    keys@.len() == ks.len(),
                    forall|x: int| 0 <= x < keys@.len() ==> (#[trigger] keys@[x])@ == ks[x],
                    seen == exists|x: int| 0 <= x < j && (#[trigger] ks[x]) == k@,
            {
                if keys[j] == *k {
                    seen = true;
                }
            }
            if !seen {
                keys.push(k.clone());
            }
            assert(ks.contains(k@) == seen);
        }
        assert(errs@.take(errs.len() as int) =~= errs@);
        let ghost gk = group_keys(errs@);
        let mut r: Vec<(CategoryId, Vec<ErrorEntry>)> = Vec::new();
        for j in 0..keys.len()
            invariant
                keys@.len() == gk.len(),
                forall|x: int| 0 <= x < keys@.len() ==> (#[trigger] keys@[x])@ == gk[x],
                r@.len() == j,
                forall|x: int|
                    0 <= x < j ==> (#[trigger] r@[x]).0@ == gk[x] && r@[x].1@ == members(
                        errs@,
                        gk[x],
                    ),
        {
            let key = &keys[j];
            let mut m: Vec<ErrorEntry> = Vec::new();
            for i in 0..errs.len()
                invariant
                    m@ == members(errs@.take(i as int), key@),
            {
                assert(errs@.take(i + 1).drop_last() =~= errs@.take(i as int));
                assert(errs@.take(i + 1).last() == errs@[i as int]);
                if errs[i].category_id == *key {
                    m.push(copy_entry(&errs[i]));
                }
                assert(m@ =~= members(errs@.take(i + 1), key@));
            }
            assert(errs@.take(errs.len() as int) =~= errs@);
            r.push((key.clone(), m));
        }
        r
    }
}


/// Replacing a pattern whose first character never occurs leaves the text
/// as it is.
pub proof fn lemma_replace_absent(s: Seq<char>, pat: Seq<char>, rep: Seq<char>)
    requires
        pat.len() > 0,
        forall|i: int| 0 <= i < s.len() ==> s[i] != pat[0],
    ensures
        replace_all(s, pat, rep) == s,
    decreases s.len(),
{
    if s.len() >= pat.len() {
        assert(s.take(pat.len() as int)[0] != pat[0]);
        lemma_replace_absent(s.skip(1), pat, rep);
        assert(seq![s[0]] + s.skip(1) =~= s);
    }
}

/// A text with no `{` renders as itself, whatever the placeholders' values.
pub proof fn lemma_plain_text_renders_verbatim(
    text: Seq<char>,
    package: Seq<char>,
    cat: Option<Category>,
    errs: Seq<ErrorEntry>,
    err: Option<ErrorEntry>,
)
    requires
        forall|i: int| 0 <= i < text.len() ==> text[i] != '{',
    ensures
        render_text(text, package, cat, errs, err) == text,
{
    reveal_strlit("{{package}}");
    reveal_strlit("{{category}}");
    reveal_strlit("{{category_description}}");
    reveal_strlit("{{category_id_start}}");
    reveal_strlit("{{category_id_end}}");
    reveal_strlit("{{id}}");
    reveal_strlit("{{name}}");
    reveal_strlit("{{message}}");
    reveal_strlit("{{hint}}");
    reveal_strlit("{{severity}}");
    lemma_replace_absent(text, "{{package}}"@, package);
    lemma_replace_absent(text, "{{category}}"@, cat_name(cat));
    lemma_replace_absent(text, "{{category_description}}"@, cat_description(cat));
    lemma_replace_absent(text, "{{category_id_start}}"@, first_id(errs));
    lemma_replace_absent(text, "{{category_id_end}}"@, end_id(errs));
    lemma_replace_absent(text, "{{id}}"@, err_text(err, Placeholder::Id));
    lemma_replace_absent(text, "{{name}}"@, err_text(err, Placeholder::Name));
    lemma_replace_absent(text, "{{message}}"@, err_text(err, Placeholder::Message));
    lemma_replace_absent(text, "{{hint}}"@, err_text(err, Placeholder::Hint));
    lemma_replace_absent(text, "{{severity}}"@, err_text(err, Placeholder::Severity));
}

/// How many errors the groups `keys` hold together.
pub open spec fn grouped_count(errs: Seq<ErrorEntry>, keys: Seq<Seq<char>>) -> nat
    decreases keys.len(),
{
    if keys.len() == 0 {
        0
    } else {
        grouped_count(errs, keys.drop_last()) + members(errs, keys.last()).len()
    }
}

proof fn lemma_members_push(errs: Seq<ErrorEntry>, e: ErrorEntry, k: Seq<char>)
    ensures
        members(errs.push(e), k) == members(errs, k) + if e.category_id@ == k {
            seq![e]
        } else {
            seq![]
        },
{
    assert(errs.push(e).drop_last() =~= errs);
}

proof fn lemma_count_push(errs: Seq<ErrorEntry>, e: ErrorEntry, keys: Seq<Seq<char>>)
    requires
        forall|i: int, j: int| 0 <= i < j < keys.len() ==> keys[i] != keys[j],
    ensures
        grouped_count(errs.push(e), keys) == grouped_count(errs, keys) + if keys.contains(
            e.category_id@,
        ) {
            1nat
        } else {
            0nat
        },
    decreases keys.len(),
{
    if keys.len() > 0 {
        let ks = keys.drop_last();
        lemma_count_push(errs, e, ks);
        lemma_members_push(errs, e, keys.last());
        if keys.contains(e.category_id@) {
            let i = choose|i: int| 0 <= i < keys.len() && keys[i] == e.category_id@;
            if i < keys.len() - 1 {
                assert(ks[i] == e.category_id@);
            }
        } else {
            assert(!ks.contains(e.category_id@)) by {
                if ks.contains(e.category_id@) {
                    let i = choose|i: int| 0 <= i < ks.len() && ks[i] == e.category_id@;
                    assert(keys[i] == e.category_id@);
                }
            }
        }
        if ks.contains(e.category_id@) {
            let i = choose|i: int| 0 <= i < ks.len() && ks[i] == e.category_id@;
            assert(keys[i] == e.category_id@);
            assert(keys.last() != e.category_id@);
        }
    }
}

proof fn lemma_count_new_key(errs: Seq<ErrorEntry>, keys: Seq<Seq<char>>, k: Seq<char>)
    ensures
        grouped_count(errs, keys.push(k)) == grouped_count(errs, keys) + members(errs, k).len(),
{
    assert(keys.push(k).drop_last() =~= keys);
}

proof fn lemma_no_members(errs: Seq<ErrorEntry>, k: Seq<char>)
    requires
        forall|i: int| 0 <= i < errs.len() ==> (#[trigger] errs[i]).category_id@ != k,
    ensures
        members(errs, k).len() == 0,
    decreases errs.len(),
{
    if errs.len() > 0 {
        lemma_no_members(errs.drop_last(), k);
    }
}

/// Grouping by category partitions the errors: the groups are distinct,
/// every error's category is one of them, no group is empty, and the groups
/// hold exactly as many errors as there are, so that a section renders each
/// error exactly once.
pub proof fn lemma_groups_partition(errs: Seq<ErrorEntry>)
    ensures
        forall|i: int, j: int|
            0 <= i < j < group_keys(errs).len() ==> group_keys(errs)[i] != group_keys(errs)[j],
        forall|i: int| 0 <= i < errs.len() ==> group_keys(errs).contains(#[trigger] errs[i].category_id@),
        forall|i: int|
            0 <= i < group_keys(errs).len() ==> members(errs, #[trigger] group_keys(errs)[i]).len() > 0,
        grouped_count(errs, group_keys(errs)) == errs.len(),
    decreases errs.len(),
{
    if errs.len() > 0 {
        let s = errs.drop_last();
        let e = errs.last();
        let ks = group_keys(s);
        let k = e.category_id@;
        lemma_groups_partition(s);
        assert(s.push(e) =~= errs);
        lemma_count_push(s, e, ks);
        assert forall|i: int| 0 <= i < ks.len() implies members(errs, #[trigger] ks[i]).len() > 0 by {
            lemma_members_push(s, e, ks[i]);
        }
        lemma_members_push(s, e, k);
        if !ks.contains(k) {
            assert forall|i: int| 0 <= i < s.len() implies (#[trigger] s[i]).category_id@ != k by {
                if s[i].category_id@ == k {
                    assert(ks.contains(s[i].category_id@));
                }
            }
            lemma_no_members(s, k);
            lemma_count_new_key(errs, ks, k);
            lemma_members_push(s, e, k);
        }
        assert forall|i: int| 0 <= i < errs.len() implies group_keys(errs).contains(
            #[trigger] errs[i].category_id@,
        ) by {
            if i < errs.len() - 1 {
                assert(errs[i] == s[i]);
                assert(ks.contains(s[i].category_id@));
                let j = choose|j: int| 0 <= j < ks.len() && ks[j] == s[i].category_id@;
                assert(group_keys(errs)[j] == ks[j]);
            } else {
                if ks.contains(k) {
                    let j = choose|j: int| 0 <= j < ks.len() && ks[j] == k;
                    assert(group_keys(errs)[j] == ks[j]);
                } else {
                    assert(group_keys(errs)[ks.len() as int] == k);
                }
            }
        }
    }
}


/// With distinct identifiers, looking a category up by its identifier finds
/// the one category stored under it, and nothing for an identifier that is
/// not stored.
pub proof fn lemma_category_lookup(cats: Seq<(CategoryId, Category)>, k: Seq<char>)
    requires
        keys_distinct(cats),
    ensures
        forall|i: int| 0 <= i < cats.len() && (#[trigger] cats[i]).0@ == k ==> category_of(cats, k)
            == Some(cats[i].1),
        !has_key(cats, k) ==> category_of(cats, k) is None,
    decreases cats.len(),
{
    if cats.len() > 0 {
        let rest = cats.drop_first();
        assert(keys_distinct(rest)) by {
            assert forall|i: int, j: int|
                0 <= i < rest.len() && 0 <= j < rest.len() && i != j implies (#[trigger] rest[i]).0@
                != (#[trigger] rest[j]).0@ by {
                assert(rest[i] == cats[i + 1] && rest[j] == cats[j + 1]);
            }
        }
        lemma_category_lookup(rest, k);
        assert forall|i: int| 0 <= i < cats.len() && (#[trigger] cats[i]).0@ == k implies category_of(
            cats,
            k,
        ) == Some(cats[i].1) by {
            if i > 0 {
                assert(rest[i - 1] == cats[i]);
                assert(cats[0].0@ != cats[i].0@);
            }
        }
        if !has_key(cats, k) {
            assert(cats[0].0@ != k);
            assert(!has_key(rest, k)) by {
                if has_key(rest, k) {
                    let i = choose|i: int| 0 <= i < rest.len() && (#[trigger] rest[i]).0@ == k;
                    assert(cats[i + 1] == rest[i]);
                }
            }
        }
    }
}


/// The text of the placeholder `ph` in templates (`{{snake_case_name}}`).
pub open spec fn token(ph: Placeholder) -> Seq<char> {
    match ph {
        Placeholder::Package => "{{package}}"@,
        Placeholder::Category => "{{category}}"@,
        Placeholder::CategoryDescription => "{{category_description}}"@,
        Placeholder::CategoryIdStart => "{{category_id_start}}"@,
        Placeholder::CategoryIdEnd => "{{category_id_end}}"@,
        Placeholder::Id => "{{id}}"@,
        Placeholder::Name => "{{name}}"@,
        Placeholder::Message => "{{message}}"@,
        Placeholder::Hint => "{{hint}}"@,
        Placeholder::Severity => "{{severity}}"@,
    }
}

/// Whether `s` holds no `{`.
pub open spec fn brace_free(s: Seq<char>) -> bool {
    forall|i: int| 0 <= i < s.len() ==> s[i] != '{'
}

/// Whether `p` occurs in `s`.
pub open spec fn occurs(s: Seq<char>, p: Seq<char>) -> bool {
    exists|i: int| 0 <= i && i + p.len() <= s.len() && #[trigger] s.subrange(i, i + p.len()) == p
}

/// Whether `s` has the shape of a placeholder: `{{`, at least one character
/// that is no brace, `}}`.
pub open spec fn is_token(s: Seq<char>) -> bool {
    &&& s.len() >= 5
    &&& s[0] == '{' && s[1] == '{' && s[s.len() - 2] == '}' && s[s.len() - 1] == '}'
    &&& forall|i: int| 2 <= i < s.len() - 2 ==> s[i] != '{' && s[i] != '}'
}

/// Replacing a pattern that does not occur leaves the text as it is.
pub proof fn lemma_replace_missing(s: Seq<char>, pat: Seq<char>, rep: Seq<char>)
    requires
        !occurs(s, pat),
    ensures
        replace_all(s, pat, rep) == s,
    decreases s.len(),
{
    if pat.len() > 0 && s.len() >= pat.len() {
        let z: int = 0;
        assert(s.subrange(z, z + pat.len()) != pat);
        assert(s.take(pat.len() as int) =~= s.subrange(z, z + pat.len()));
        assert(!occurs(s.skip(1), pat)) by {
            if occurs(s.skip(1), pat) {
                let i = choose|i: int|
                    0 <= i && i + pat.len() <= s.skip(1).len() && #[trigger] s.skip(1).subrange(
                        i,
                        i + pat.len(),
                    ) == pat;
                assert(s.subrange(i + 1, i + 1 + pat.len()) =~= s.skip(1).subrange(i, i + pat.len()));
            }
        }
        lemma_replace_missing(s.skip(1), pat, rep);
        assert(seq![s[0]] + s.skip(1) =~= s);
    }
}

/// A pattern starting with `{{` never matches a text without two `{` in a
/// row.
proof fn lemma_replace_no_double_brace(s: Seq<char>, pat: Seq<char>, rep: Seq<char>)
    requires
        pat.len() >= 2,
        pat[0] == '{' && pat[1] == '{',
        forall|i: int| 0 <= i < s.len() - 1 ==> !(#[trigger] s[i] == '{' && s[i + 1] == '{'),
    ensures
        replace_all(s, pat, rep) == s,
    decreases s.len(),
{
    if s.len() >= pat.len() {
        assert(s.take(pat.len() as int)[0] == s[0] && s.take(pat.len() as int)[1] == s[1]);
        lemma_replace_no_double_brace(s.skip(1), pat, rep);
        assert(seq![s[0]] + s.skip(1) =~= s);
    }
}

/// Replacing a placeholder pattern in a text made of a placeholder `tok` and
/// a tail without `{` replaces `tok` when it is that pattern, and leaves the
/// text as it is otherwise.
proof fn lemma_replace_token(tok: Seq<char>, tail: Seq<char>, pat: Seq<char>, rep: Seq<char>)
    requires
        is_token(tok),
        is_token(pat),
        brace_free(tail),
    ensures
        replace_all(tok + tail, pat, rep) == if tok == pat {
            rep + tail
        } else {
            tok + tail
        },
{
    let s = tok + tail;
    let m = pat.len();
    if s.len() >= m {
        if s.take(m as int) == pat {
            if m < tok.len() {
                assert(s[m - 2] == pat[m - 2]);
            } else if m > tok.len() {
                assert(s[tok.len() - 2] == pat[tok.len() - 2]);
            }
            assert(tok =~= pat);
            assert(s.skip(m as int) =~= tail);
            lemma_replace_absent(tail, pat, rep);
        } else {
            assert(tok != pat) by {
                if tok == pat {
                    assert(s.take(m as int) =~= pat);
                }
            }
            lemma_replace_no_double_brace(s.skip(1), pat, rep);
            assert(seq![s[0]] + s.skip(1) =~= s);
        }
    } else {
        assert(tok != pat);
    }
}

proof fn lemma_tokens()
    ensures
        forall|ph: Placeholder| #[trigger] is_token(token(ph)),
        forall|a: Placeholder, b: Placeholder| a != b ==> #[trigger] token(a) != #[trigger] token(b),
{
    reveal_strlit("{{package}}");
    reveal_strlit("{{category}}");
    reveal_strlit("{{category_description}}");
    reveal_strlit("{{category_id_start}}");
    reveal_strlit("{{category_id_end}}");
    reveal_strlit("{{id}}");
    reveal_strlit("{{name}}");
    reveal_strlit("{{message}}");
    reveal_strlit("{{hint}}");
    reveal_strlit("{{severity}}");
    assert forall|a: Placeholder, b: Placeholder| a != b implies #[trigger] token(a) != #[trigger] token(
        b,
    ) by {
        if token(a).len() == token(b).len() {
            assert(token(a)[2] != token(b)[2] || token(a)[3] != token(b)[3] || token(a)[10]
                != token(b)[10] || token(a)[11] != token(b)[11]);
        }
    }
}

/// The value a placeholder is replaced by when a text is rendered.
pub open spec fn token_value(
    ph: Placeholder,
    package: Seq<char>,
    cat: Option<Category>,
    errs: Seq<ErrorEntry>,
    err: Option<ErrorEntry>,
) -> Seq<char> {
    if ph == Placeholder::Package {
        package
    } else {
        placeholder_text(ph, cat, errs, err)
    }
}

/// A placeholder followed by a text without `{` renders as the
/// placeholder's value followed by that text, when the value holds no `{`.
pub proof fn lemma_render_token(
    ph: Placeholder,
    tail: Seq<char>,
    package: Seq<char>,
    cat: Option<Category>,
    errs: Seq<ErrorEntry>,
    err: Option<ErrorEntry>,
)
    requires
        brace_free(tail),
        brace_free(token_value(ph, package, cat, errs, err)),
    ensures
        render_text(token(ph) + tail, package, cat, errs, err) == token_value(
            ph,
            package,
            cat,
            errs,
            err,
        ) + tail,
{
    lemma_tokens();
    let v = token_value(ph, package, cat, errs, err);
    let t = token(ph) + tail;
    let done = v + tail;
    assert(brace_free(done));
    let p0 = token(Placeholder::Package);
    let p1 = token(Placeholder::Category);
    let p2 = token(Placeholder::CategoryDescription);
    let p3 = token(Placeholder::CategoryIdStart);
    let p4 = token(Placeholder::CategoryIdEnd);
    let p5 = token(Placeholder::Id);
    let p6 = token(Placeholder::Name);
    let p7 = token(Placeholder::Message);
    let p8 = token(Placeholder::Hint);
    let p9 = token(Placeholder::Severity);
    let s1 = replace_all(t, p0, package);
    lemma_step(t, t, done, token(ph), tail, p0, package);
    let s2 = replace_all(s1, p1, cat_name(cat));
    lemma_step(s1, t, done, token(ph), tail, p1, cat_name(cat));
    let s3 = replace_all(s2, p2, cat_description(cat));
    lemma_step(s2, t, done, token(ph), tail, p2, cat_description(cat));
    let s4 = replace_all(s3, p3, first_id(errs));
    lemma_step(s3, t, done, token(ph), tail, p3, first_id(errs));
    let s5 = replace_all(s4, p4, end_id(errs));
    lemma_step(s4, t, done, token(ph), tail, p4, end_id(errs));
    let s6 = replace_all(s5, p5, err_text(err, Placeholder::Id));
    lemma_step(s5, t, done, token(ph), tail, p5, err_text(err, Placeholder::Id));
    let s7 = replace_all(s6, p6, err_text(err, Placeholder::Name));
    lemma_step(s6, t, done, token(ph), tail, p6, err_text(err, Placeholder::Name));
    let s8 = replace_all(s7, p7, err_text(err, Placeholder::Message));
    lemma_step(s7, t, done, token(ph), tail, p7, err_text(err, Placeholder::Message));
    let s9 = replace_all(s8, p8, err_text(err, Placeholder::Hint));
    lemma_step(s8, t, done, token(ph), tail, p8, err_text(err, Placeholder::Hint));
    lemma_step(s9, t, done, token(ph), tail, p9, err_text(err, Placeholder::Severity));
    assert(p0 == "{{package}}"@ && p1 == "{{category}}"@ && p2 == "{{category_description}}"@);
    assert(p3 == "{{category_id_start}}"@ && p4 == "{{category_id_end}}"@ && p5 == "{{id}}"@);
    assert(p6 == "{{name}}"@ && p7 == "{{message}}"@ && p8 == "{{hint}}"@ && p9 == "{{severity}}"@);
}

proof fn lemma_step(
    cur: Seq<char>,
    t: Seq<char>,
    done: Seq<char>,
    tok: Seq<char>,
    tail: Seq<char>,
    p: Seq<char>,
    rep: Seq<char>,
)
    requires
        is_token(tok),
        is_token(p),
        brace_free(tail),
        brace_free(done),
        t == tok + tail,
        cur == t || cur == done,
    ensures
        replace_all(cur, p, rep) == if cur == t && tok == p {
            rep + tail
        } else {
            cur
        },
{
    if cur == t {
        lemma_replace_token(tok, tail, p, rep);
    } else {
        lemma_replace_absent(cur, p, rep);
    }
}


/// A text in which no placeholder occurs renders as itself: unknown
/// placeholders such as `{{foo}}` are left intact.
pub proof fn lemma_unknown_placeholders_intact(
    text: Seq<char>,
    package: Seq<char>,
    cat: Option<Category>,
    errs: Seq<ErrorEntry>,
    err: Option<ErrorEntry>,
)
    requires
        forall|ph: Placeholder| !occurs(text, #[trigger] token(ph)),
    ensures
        render_text(text, package, cat, errs, err) == text,
{
    assert(!occurs(text, token(Placeholder::Package)));
    assert(!occurs(text, token(Placeholder::Category)));
    assert(!occurs(text, token(Placeholder::CategoryDescription)));
    assert(!occurs(text, token(Placeholder::CategoryIdStart)));
    assert(!occurs(text, token(Placeholder::CategoryIdEnd)));
    assert(!occurs(text, token(Placeholder::Id)));
    assert(!occurs(text, token(Placeholder::Name)));
    assert(!occurs(text, token(Placeholder::Message)));
    assert(!occurs(text, token(Placeholder::Hint)));
    assert(!occurs(text, token(Placeholder::Severity)));
    lemma_replace_missing(text, "{{package}}"@, package);
    lemma_replace_missing(text, "{{category}}"@, cat_name(cat));
    lemma_replace_missing(text, "{{category_description}}"@, cat_description(cat));
    lemma_replace_missing(text, "{{category_id_start}}"@, first_id(errs));
    lemma_replace_missing(text, "{{category_id_end}}"@, end_id(errs));
    lemma_replace_missing(text, "{{id}}"@, err_text(err, Placeholder::Id));
    lemma_replace_missing(text, "{{name}}"@, err_text(err, Placeholder::Name));
    lemma_replace_missing(text, "{{message}}"@, err_text(err, Placeholder::Message));
    lemma_replace_missing(text, "{{hint}}"@, err_text(err, Placeholder::Hint));
    lemma_replace_missing(text, "{{severity}}"@, err_text(err, Placeholder::Severity));
}

/// A placeholder other than the package, rendered on its own, gives the
/// value that decides whether a piece is left out, when that value holds no
/// `{`.
pub proof fn lemma_placeholder_is_rendered_token(
    ph: Placeholder,
    package: Seq<char>,
    cat: Option<Category>,
    errs: Seq<ErrorEntry>,
    err: Option<ErrorEntry>,
)
    requires
        ph != Placeholder::Package,
        brace_free(placeholder_text(ph, cat, errs, err)),
    ensures
        render_text(token(ph), package, cat, errs, err) == placeholder_text(ph, cat, errs, err),
{
    let e = Seq::<char>::empty();
    lemma_render_token(ph, e, package, cat, errs, err);
    assert(token(ph) + e =~= token(ph));
    assert(placeholder_text(ph, cat, errs, err) + e =~= placeholder_text(ph, cat, errs, err));
}

/// An empty text renders as nothing.
pub proof fn lemma_render_empty(
    package: Seq<char>,
    cat: Option<Category>,
    errs: Seq<ErrorEntry>,
    err: Option<ErrorEntry>,
)
    ensures
        render_text(seq![], package, cat, errs, err) == Seq::<char>::empty(),
{
    lemma_tokens();
    assert forall|ph: Placeholder| !occurs(seq![], #[trigger] token(ph)) by {
        assert(is_token(token(ph)));
    }
    lemma_unknown_placeholders_intact(seq![], package, cat, errs, err);
}

/// Rendering is the header, then each section, then the footer; and a
/// section is its prefix, then what a template holding only that section
/// without prefix and suffix renders, then its suffix.
pub proof fn lemma_rendering_decomposes(
    t: Template,
    package: Seq<char>,
    pe: ProjectErrors,
    i: int,
    bare: Template,
)
    requires
        0 <= i < t.sections@.len(),
        bare.header@.len() == 0,
        bare.footer@.len() == 0,
        bare.sections@.len() == 1,
        bare.sections@[0].prefix@.len() == 0,
        bare.sections@[0].suffix@.len() == 0,
        bare.sections@[0].end == t.sections@[i].end,
        bare.sections@[0].category_end == t.sections@[i].category_end,
        bare.sections@[0].category == t.sections@[i].category,
        bare.sections@[0].error == t.sections@[i].error,
    ensures
        render_template(t, package, pe) == render_text(t.header@, package, None, seq![], None)
            + render_sections(t.sections@, package, pe) + render_text(
            t.footer@,
            package,
            None,
            seq![],
            None,
        ),
        render_section(t.sections@[i], package, pe) == render_text(
            t.sections@[i].prefix@,
            package,
            None,
            seq![],
            None,
        ) + render_template(bare, package, pe) + render_text(
            t.sections@[i].suffix@,
            package,
            None,
            seq![],
            None,
        ),
{
    let sec = t.sections@[i];
    let b = bare.sections@[0];
    lemma_render_empty(package, None, seq![], None);
    assert(bare.header@ =~= Seq::<char>::empty());
    assert(bare.footer@ =~= Seq::<char>::empty());
    assert(b.prefix@ =~= Seq::<char>::empty());
    assert(b.suffix@ =~= Seq::<char>::empty());
    assert(bare.sections@.drop_last() =~= Seq::<Section>::empty());
    lemma_groups_same(sec, b, package, pe, group_keys(pe.errors@));
    let g = render_groups(sec, package, pe, group_keys(pe.errors@));
    assert(render_section(b, package, pe) =~= g);
    assert(bare.sections@.last() == b);
    assert(render_sections(Seq::<Section>::empty(), package, pe) == Seq::<char>::empty());
    assert(render_sections(bare.sections@, package, pe) =~= g);
    assert(render_template(bare, package, pe) =~= g);
}

proof fn lemma_groups_same(
    a: Section,
    b: Section,
    package: Seq<char>,
    pe: ProjectErrors,
    keys: Seq<Seq<char>>,
)
    requires
        a.end == b.end,
        a.category_end == b.category_end,
        a.category == b.category,
        a.error == b.error,
    ensures
        render_groups(a, package, pe, keys) == render_groups(b, package, pe, keys),
    decreases keys.len(),
{
    if keys.len() > 0 {
        lemma_groups_same(a, b, package, pe, keys.drop_last());
        let k = keys.last();
        let es = members(pe.errors@, k);
        lemma_errors_same(a, b, package, category_of(pe.categories@, k), es, es.len());
    }
}

proof fn lemma_errors_same(
    a: Section,
    b: Section,
    package: Seq<char>,
    cat: Option<Category>,
    errs: Seq<ErrorEntry>,
    n: nat,
)
    requires
        a.end == b.end,
        a.error == b.error,
    ensures
        render_errors(a, package, cat, errs, n) == render_errors(b, package, cat, errs, n),
    decreases n,
{
    if n > 0 {
        lemma_errors_same(a, b, package, cat, errs, (n - 1) as nat);
    }
}

/// Each identifier of `es` followed by a line break, in order.
pub open spec fn id_lines(es: Seq<ErrorEntry>) -> Seq<char>
    decreases es.len(),
{
    if es.len() == 0 {
        seq![]
    } else {
        id_lines(es.drop_last()) + es.last().id@ + seq!['\n']
    }
}

/// The identifier lines of each group `keys` of `errs`, group after group.
pub open spec fn grouped_id_lines(errs: Seq<ErrorEntry>, keys: Seq<Seq<char>>) -> Seq<char>
    decreases keys.len(),
{
    if keys.len() == 0 {
        seq![]
    } else {
        grouped_id_lines(errs, keys.drop_last()) + id_lines(members(errs, keys.last()))
    }
}

/// Whether no identifier of `es` holds a `{`.
pub open spec fn ids_brace_free(es: Seq<ErrorEntry>) -> bool {
    forall|i: int| 0 <= i < es.len() ==> brace_free(#[trigger] es[i].id@)
}

proof fn lemma_members_brace_free(errs: Seq<ErrorEntry>, k: Seq<char>)
    requires
        ids_brace_free(errs),
    ensures
        ids_brace_free(members(errs, k)),
    decreases errs.len(),
{
    if errs.len() > 0 {
        let s = errs.drop_last();
        assert(ids_brace_free(s)) by {
            assert forall|i: int| 0 <= i < s.len() implies brace_free(#[trigger] s[i].id@) by {
                assert(s[i] == errs[i]);
            }
        }
        lemma_members_brace_free(s, k);
        let m = members(errs, k);
        let ms = members(s, k);
        assert forall|i: int| 0 <= i < m.len() implies brace_free(#[trigger] m[i].id@) by {
            if i < ms.len() {
                assert(m[i] == ms[i]);
            } else {
                assert(m[i] == errs.last());
                assert(errs.last() == errs[errs.len() - 1]);
            }
        }
    }
}

proof fn lemma_id_errors(
    sec: Section,
    package: Seq<char>,
    cat: Option<Category>,
    es: Seq<ErrorEntry>,
    n: nat,
)
    requires
        n <= es.len(),
        ids_brace_free(es),
        sec.end@.len() == 0,
        sec.error@.len() == 1,
        sec.error@[0].text@ == token(Placeholder::Id) + seq!['\n'],
        sec.error@[0].skip_if_empty is None,
    ensures
        render_errors(sec, package, cat, es, n) == id_lines(es.take(n as int)),
    decreases n,
{
    if n > 0 {
        lemma_id_errors(sec, package, cat, es, (n - 1) as nat);
        let e = es[n - 1];
        assert(brace_free(e.id@));
        assert(brace_free(seq!['\n']));
        lemma_render_token(Placeholder::Id, seq!['\n'], package, cat, es, Some(e));
        lemma_render_empty(package, cat, es, None);
        assert(sec.end@ =~= Seq::<char>::empty());
        assert(sec.error@.drop_last() =~= Seq::<Piece>::empty());
        assert(es.take(n as int).drop_last() =~= es.take(n - 1));
        assert(es.take(n as int).last() == e);
        assert(sec.error@.last() == sec.error@[0]);
        assert(render_pieces(Seq::<Piece>::empty(), sec.end@, package, cat, es, Some(e))
            == Seq::<char>::empty());
        assert(token_value(Placeholder::Id, package, cat, es, Some(e)) == e.id@);
        assert(!skips(sec.error@[0], cat, es, Some(e)));
        assert(render_text(sec.error@[0].text@, package, cat, es, Some(e)) == e.id@ + seq!['\n']);
        assert(render_text(sec.end@, package, cat, es, None) == Seq::<char>::empty());
        assert(render_pieces(sec.error@, sec.end@, package, cat, es, Some(e)) =~= e.id@ + seq!['\n']);
    } else {
        assert(es.take(0) =~= Seq::<ErrorEntry>::empty());
    }
}

proof fn lemma_id_groups(sec: Section, package: Seq<char>, pe: ProjectErrors, keys: Seq<Seq<char>>)
    requires
        ids_brace_free(pe.errors@),
        sec.end@.len() == 0,
        sec.category_end@.len() == 0,
        sec.category@.len() == 0,
        sec.error@.len() == 1,
        sec.error@[0].text@ == token(Placeholder::Id) + seq!['\n'],
        sec.error@[0].skip_if_empty is None,
    ensures
        render_groups(sec, package, pe, keys) == grouped_id_lines(pe.errors@, keys),
    decreases keys.len(),
{
    if keys.len() > 0 {
        lemma_id_groups(sec, package, pe, keys.drop_last());
        let k = keys.last();
        let es = members(pe.errors@, k);
        let cat = category_of(pe.categories@, k);
        lemma_members_brace_free(pe.errors@, k);
        lemma_id_errors(sec, package, cat, es, es.len());
        assert(es.take(es.len() as int) =~= es);
        lemma_render_empty(package, cat, es, None);
        assert(sec.category_end@ =~= Seq::<char>::empty());
        assert(sec.category@ =~= Seq::<Piece>::empty());
        assert(render_group(sec, package, pe.categories@, k, es) =~= id_lines(es));
    }
}

/// With one section whose only piece is the error line `{{id}}` and a line
/// break, and identifiers without `{`, rendering lists every error's
/// identifier on a line, grouped by category in the order of each
/// category's first error, each group in the errors' order; with
/// `lemma_groups_partition`, each error exactly once.
pub proof fn lemma_each_error_once(t: Template, package: Seq<char>, pe: ProjectErrors)
    requires
        ids_brace_free(pe.errors@),
        t.header@.len() == 0,
        t.footer@.len() == 0,
        t.sections@.len() == 1,
        t.sections@[0].prefix@.len() == 0,
        t.sections@[0].suffix@.len() == 0,
        t.sections@[0].end@.len() == 0,
        t.sections@[0].category_end@.len() == 0,
        t.sections@[0].category@.len() == 0,
        t.sections@[0].error@.len() == 1,
        t.sections@[0].error@[0].text@ == token(Placeholder::Id) + seq!['\n'],
        t.sections@[0].error@[0].skip_if_empty is None,
    ensures
        render_template(t, package, pe) == grouped_id_lines(pe.errors@, group_keys(pe.errors@)),
{
    let sec = t.sections@[0];
    lemma_id_groups(sec, package, pe, group_keys(pe.errors@));
    lemma_render_empty(package, None, seq![], None);
    assert(t.header@ =~= Seq::<char>::empty());
    assert(t.footer@ =~= Seq::<char>::empty());
    assert(sec.prefix@ =~= Seq::<char>::empty());
    assert(sec.suffix@ =~= Seq::<char>::empty());
    assert(t.sections@.drop_last() =~= Seq::<Section>::empty());
    let g = grouped_id_lines(pe.errors@, group_keys(pe.errors@));
    assert(render_section(sec, package, pe) =~= g);
    assert(t.sections@.last() == sec);
    assert(render_sections(Seq::<Section>::empty(), package, pe) == Seq::<char>::empty());
    assert(render_template(t, package, pe) =~= g);
}


/// What a category placeholder stands for in the category `k` of `pe`:
/// the identifier of the first or last error filed under `k`, or the name
/// or description of the category stored under `k` (nothing when none is).
pub open spec fn group_value(pe: ProjectErrors, k: Seq<char>, ph: Placeholder) -> Seq<char> {
    let ms = members(pe.errors@, k);
    let cats = pe.categories@;
    let c = (choose|i: int| 0 <= i < cats.len() && (#[trigger] cats[i]).0@ == k);
    if ph == Placeholder::CategoryIdStart {
        ms[0].id@
    } else if ph == Placeholder::CategoryIdEnd {
        ms[ms.len() - 1].id@
    } else if !has_key(cats, k) {
        seq![]
    } else if ph == Placeholder::Category {
        cats[c].1.name@
    } else {
        cats[c].1.description@
    }
}

/// For each group `keys` of `pe`'s errors, group after group: what `ph`
/// stands for in that category, then `tail`.
pub open spec fn group_lines(pe: ProjectErrors, keys: Seq<Seq<char>>, ph: Placeholder, tail: Seq<char>) -> Seq<char>
    decreases keys.len(),
{
    if keys.len() == 0 {
        seq![]
    } else {
        group_lines(pe, keys.drop_last(), ph, tail) + group_value(pe, keys.last(), ph) + tail
    }
}

/// Whether `ph` is a placeholder of the category rather than of an error.
pub open spec fn is_category_placeholder(ph: Placeholder) -> bool {
    ph == Placeholder::CategoryIdStart || ph == Placeholder::CategoryIdEnd || ph
        == Placeholder::Category || ph == Placeholder::CategoryDescription
}

/// Whether no category name or description of `pe` holds a `{`.
pub open spec fn categories_brace_free(pe: ProjectErrors) -> bool {
    forall|i: int|
        0 <= i < pe.categories@.len() ==> brace_free((#[trigger] pe.categories@[i]).1.name@)
            && brace_free(pe.categories@[i].1.description@)
}

proof fn lemma_no_error_pieces(
    sec: Section,
    package: Seq<char>,
    cat: Option<Category>,
    es: Seq<ErrorEntry>,
    n: nat,
)
    requires
        sec.error@.len() == 0,
    ensures
        render_errors(sec, package, cat, es, n) == Seq::<char>::empty(),
    decreases n,
{
    if n > 0 {
        lemma_no_error_pieces(sec, package, cat, es, (n - 1) as nat);
        assert(render_pieces(sec.error@, sec.end@, package, cat, es, Some(es[n - 1])) == Seq::<
            char,
        >::empty());
    }
}

proof fn lemma_group_placeholder(
    sec: Section,
    package: Seq<char>,
    pe: ProjectErrors,
    keys: Seq<Seq<char>>,
    ph: Placeholder,
    tail: Seq<char>,
)
    requires
        pe.wf(),
        ids_brace_free(pe.errors@),
        categories_brace_free(pe),
        brace_free(tail),
        is_category_placeholder(ph),
        sec.end@.len() == 0,
        sec.category_end@.len() == 0,
        sec.error@.len() == 0,
        sec.category@.len() == 1,
        sec.category@[0].text@ == token(ph) + tail,
        sec.category@[0].skip_if_empty is None,
        forall|i: int| 0 <= i < keys.len() ==> members(pe.errors@, #[trigger] keys[i]).len() > 0,
    ensures
        render_groups(sec, package, pe, keys) == group_lines(pe, keys, ph, tail),
    decreases keys.len(),
{
    if keys.len() > 0 {
        let ks = keys.drop_last();
        assert forall|i: int| 0 <= i < ks.len() implies members(pe.errors@, #[trigger] ks[i]).len()
            > 0 by {
            assert(ks[i] == keys[i]);
        }
        lemma_group_placeholder(sec, package, pe, ks, ph, tail);
        let k = keys.last();
        assert(members(pe.errors@, keys[keys.len() - 1]).len() > 0);
        let es = members(pe.errors@, k);
        let cats = pe.categories@;
        let cat = category_of(cats, k);
        lemma_members_brace_free(pe.errors@, k);
        assert(brace_free(es[0].id@));
        assert(brace_free(es[es.len() - 1].id@));
        lemma_category_lookup(cats, k);
        if has_key(cats, k) {
            let c = choose|i: int| 0 <= i < cats.len() && (#[trigger] cats[i]).0@ == k;
            assert(cat == Some(cats[c].1));
            assert(brace_free(cats[c].1.name@) && brace_free(cats[c].1.description@));
        }
        let v = token_value(ph, package, cat, es, None);
        assert(v == group_value(pe, k, ph));
        lemma_render_token(ph, tail, package, cat, es, None);
        lemma_render_empty(package, cat, es, None);
        lemma_no_error_pieces(sec, package, cat, es, es.len());
        assert(sec.end@ =~= Seq::<char>::empty());
        assert(sec.category_end@ =~= Seq::<char>::empty());
        assert(sec.category@.drop_last() =~= Seq::<Piece>::empty());
        assert(sec.category@.last() == sec.category@[0]);
        assert(!skips(sec.category@[0], cat, es, None));
        assert(render_pieces(Seq::<Piece>::empty(), sec.end@, package, cat, es, None)
            == Seq::<char>::empty());
        assert(render_pieces(sec.category@, sec.end@, package, cat, es, None) =~= v + tail);
        assert(render_group(sec, package, cats, k, es) =~= v + tail);
    }
}

/// Category pieces speak of their own category: with one section whose
/// only category piece is a category placeholder (`{{category}}`,
/// `{{category_description}}`, `{{category_id_start}}` or
/// `{{category_id_end}}`) followed by a text without `{`, no error pieces,
/// no header, footer, prefix, suffix, `end` or `category_end`, and names,
/// descriptions and identifiers without `{`, rendering gives, for each
/// category in the order of its first error, the name or description of
/// that category, or the identifier of the first or last error filed under
/// it, followed by that text.
pub proof fn lemma_category_pieces(
    t: Template,
    package: Seq<char>,
    pe: ProjectErrors,
    ph: Placeholder,
    tail: Seq<char>,
)
    requires
        pe.wf(),
        ids_brace_free(pe.errors@),
        categories_brace_free(pe),
        brace_free(tail),
        is_category_placeholder(ph),
        t.header@.len() == 0,
        t.footer@.len() == 0,
        t.sections@.len() == 1,
        t.sections@[0].prefix@.len() == 0,
        t.sections@[0].suffix@.len() == 0,
        t.sections@[0].end@.len() == 0,
        t.sections@[0].category_end@.len() == 0,
        t.sections@[0].error@.len() == 0,
        t.sections@[0].category@.len() == 1,
        t.sections@[0].category@[0].text@ == token(ph) + tail,
        t.sections@[0].category@[0].skip_if_empty is None,
    ensures
        render_template(t, package, pe) == group_lines(pe, group_keys(pe.errors@), ph, tail),
{
    lemma_groups_partition(pe.errors@);
    lemma_single_section(t, package, pe);
    lemma_group_placeholder(t.sections@[0], package, pe, group_keys(pe.errors@), ph, tail);
}

/// A piece is left out exactly when its own placeholder, rendered on its
/// own, is blank (for a value without `{`); the package never leaves a
/// piece out.
pub proof fn lemma_skip_follows_own_placeholder(
    piece: Piece,
    package: Seq<char>,
    cat: Option<Category>,
    errs: Seq<ErrorEntry>,
    err: Option<ErrorEntry>,
)
    ensures
        piece.skip_if_empty is None ==> !skips(piece, cat, errs, err),
        piece.skip_if_empty == Some(Placeholder::Package) ==> !skips(piece, cat, errs, err),
        piece.skip_if_empty is Some && piece.skip_if_empty.unwrap() != Placeholder::Package
            && brace_free(placeholder_text(piece.skip_if_empty.unwrap(), cat, errs, err)) ==> (
        skips(piece, cat, errs, err) <==> is_blank(
            render_text(token(piece.skip_if_empty.unwrap()), package, cat, errs, err),
        )),
{
    if let Some(ph) = piece.skip_if_empty {
        if ph != Placeholder::Package && brace_free(placeholder_text(ph, cat, errs, err)) {
            lemma_placeholder_is_rendered_token(ph, package, cat, errs, err);
        }
    }
}

/// In an error, a piece that names an error field is left out exactly when
/// that field of the error is blank: the hint for `{{hint}}`, the message
/// for `{{message}}`, and so on; no other field counts.
pub proof fn lemma_skip_by_error_field(
    piece: Piece,
    cat: Option<Category>,
    errs: Seq<ErrorEntry>,
    e: ErrorEntry,
)
    ensures
        piece.skip_if_empty == Some(Placeholder::Id) ==> (skips(piece, cat, errs, Some(e))
            <==> is_blank(e.id@)),
        piece.skip_if_empty == Some(Placeholder::Name) ==> (skips(piece, cat, errs, Some(e))
            <==> is_blank(e.name@)),
        piece.skip_if_empty == Some(Placeholder::Message) ==> (skips(piece, cat, errs, Some(e))
            <==> is_blank(e.message@)),
        piece.skip_if_empty == Some(Placeholder::Hint) ==> (skips(piece, cat, errs, Some(e))
            <==> is_blank(e.hint@)),
        piece.skip_if_empty == Some(Placeholder::Severity) ==> (skips(piece, cat, errs, Some(e))
            <==> is_blank(severity_text(e.severity))),
{
}

/// The sections, each as its rendered prefix, its categories (what a
/// template holding only that section, without prefix and suffix, renders:
/// `lemma_rendering_decomposes`) and its rendered suffix.
pub open spec fn sections_by_parts(secs: Seq<Section>, package: Seq<char>, pe: ProjectErrors) -> Seq<
    char,
>
    decreases secs.len(),
{
    if secs.len() == 0 {
        seq![]
    } else {
        let sec = secs.last();
        sections_by_parts(secs.drop_last(), package, pe) + render_text(
            sec.prefix@,
            package,
            None,
            seq![],
            None,
        ) + render_groups(sec, package, pe, group_keys(pe.errors@)) + render_text(
            sec.suffix@,
            package,
            None,
            seq![],
            None,
        )
    }
}

/// Rendering is the rendered header, then for each section its rendered
/// prefix, its categories and its rendered suffix, then the rendered footer.
pub proof fn lemma_rendering_by_sections(t: Template, package: Seq<char>, pe: ProjectErrors)
    ensures
        render_template(t, package, pe) == render_text(t.header@, package, None, seq![], None)
            + sections_by_parts(t.sections@, package, pe) + render_text(
            t.footer@,
            package,
            None,
            seq![],
            None,
        ),
{
    lemma_sections_by_parts(t.sections@, package, pe);
}

proof fn lemma_sections_by_parts(secs: Seq<Section>, package: Seq<char>, pe: ProjectErrors)
    ensures
        render_sections(secs, package, pe) == sections_by_parts(secs, package, pe),
    decreases secs.len(),
{
    if secs.len() > 0 {
        lemma_sections_by_parts(secs.drop_last(), package, pe);
        assert(render_sections(secs, package, pe) =~= sections_by_parts(secs, package, pe));
    }
}

/// A template with one section and no header, footer, prefix or suffix
/// renders that section's categories, in the order of each category's first
/// error: for each, the pieces of the category left in, each followed by
/// `end`, then `category_end`, then each error's pieces left in, each
/// followed by `end` (`render_group`).
pub proof fn lemma_single_section(t: Template, package: Seq<char>, pe: ProjectErrors)
    requires
        t.header@.len() == 0,
        t.footer@.len() == 0,
        t.sections@.len() == 1,
        t.sections@[0].prefix@.len() == 0,
        t.sections@[0].suffix@.len() == 0,
    ensures
        render_template(t, package, pe) == render_groups(
            t.sections@[0],
            package,
            pe,
            group_keys(pe.errors@),
        ),
{
    let sec = t.sections@[0];
    lemma_render_empty(package, None, seq![], None);
    assert(t.header@ =~= Seq::<char>::empty());
    assert(t.footer@ =~= Seq::<char>::empty());
    assert(sec.prefix@ =~= Seq::<char>::empty());
    assert(sec.suffix@ =~= Seq::<char>::empty());
    assert(t.sections@.drop_last() =~= Seq::<Section>::empty());
    assert(t.sections@.last() == sec);
    assert(render_sections(Seq::<Section>::empty(), package, pe) == Seq::<char>::empty());
    let g = render_groups(sec, package, pe, group_keys(pe.errors@));
    assert(render_section(sec, package, pe) =~= g);
    assert(render_template(t, package, pe) =~= g);
}

} // verus!
