//! Template resolution: the file paths where a template may stand, and the
//! choice among those that exist, with fallbacks for header and footer
//! variants. Which files exist is found out by the caller.
use crate::error::LuminessError;
use crate::renderer::{inclusion_view, Inclusion, IncludeRequest};
use crate::text::{strings_view, clone_strings, opt_view, push_char, to_owned_string};
use crate::LuminessConfig;
use vstd::prelude::*;

verus! {

/// The file name of a template: its name, a dot and the extension.
pub open spec fn file_name(name: Seq<char>, ext: Seq<char>) -> Seq<char> {
    name + seq!['.'] + ext
}

/// `dir` joined with `file` as `Path::join` does it on Unix: an absolute `file`
/// replaces `dir`, and a `/` separates them unless `dir` is empty or ends in one.
pub open spec fn join_path(dir: Seq<char>, file: Seq<char>) -> Seq<char> {
    if file.len() > 0 && file[0] == '/' {
        file
    } else if dir.len() == 0 || dir.last() == '/' {
        dir + file
    } else {
        dir + seq!['/'] + file
    }
}

/// The paths where template `name` may stand, in search order.
pub open spec fn candidates(dirs: Seq<Seq<char>>, ext: Seq<char>, name: Seq<char>) -> Seq<
    Seq<char>,
> {
    dirs.map_values(|d: Seq<char>| join_path(d, file_name(name, ext)))
}

/// The first of `paths` from index `i` on that is among `existing`.
pub open spec fn first_existing(paths: Seq<Seq<char>>, existing: Seq<Seq<char>>, i: int) -> Option<
    Seq<char>,
>
    decreases paths.len() - i,
{
    if i < 0 || i >= paths.len() {
        None
    } else if existing.contains(paths[i]) {
        Some(paths[i])
    } else {
        first_existing(paths, existing, i + 1)
    }
}

/// The path that template `name` resolves to, given the paths that exist.
pub open spec fn resolved(dirs: Seq<Seq<char>>, ext: Seq<char>, name: Seq<char>, existing: Seq<
    Seq<char>,
>) -> Option<Seq<char>> {
    first_existing(candidates(dirs, ext, name), existing, 0)
}

/// The path of a header or footer (`kind`), trying the variant first.
pub open spec fn resolved_variant(
    dirs: Seq<Seq<char>>,
    ext: Seq<char>,
    kind: Seq<char>,
    variant: Option<Seq<char>>,
    existing: Seq<Seq<char>>,
) -> Option<Seq<char>> {
    match variant {
        Some(v) => match resolved(dirs, ext, kind + seq!['-'] + v, existing) {
            Some(p) => Some(p),
            None => resolved(dirs, ext, kind, existing),
        },
        None => resolved(dirs, ext, kind, existing),
    }
}

/// The path a template resolves to is the first of its candidate paths that
/// exists: it exists, it is a candidate, and no candidate before it exists.
/// Where none exists, it resolves to nothing.
pub proof fn lemma_resolved_is_first_existing(
    dirs: Seq<Seq<char>>,
    ext: Seq<char>,
    name: Seq<char>,
    existing: Seq<Seq<char>>,
)
    ensures
        ({
            let c = candidates(dirs, ext, name);
            &&& resolved(dirs, ext, name, existing) matches Some(p) ==> existing.contains(p)
                && exists|i: int|
                0 <= i < c.len() && c[i] == p && forall|j: int|
                    0 <= j < i ==> !existing.contains(#[trigger] c[j])
            &&& resolved(dirs, ext, name, existing) is None ==> forall|i: int|
                0 <= i < c.len() ==> !existing.contains(#[trigger] c[i])
        }),
{
    lemma_first_existing(candidates(dirs, ext, name), existing, 0);
}

proof fn lemma_first_existing(paths: Seq<Seq<char>>, existing: Seq<Seq<char>>, from: int)
    requires
        0 <= from,
    ensures
        first_existing(paths, existing, from) matches Some(p) ==> existing.contains(p) && exists|
            i: int,
        |
            from <= i < paths.len() && paths[i] == p && forall|j: int|
                from <= j < i ==> !existing.contains(#[trigger] paths[j]),
        first_existing(paths, existing, from) is None ==> forall|i: int|
            from <= i < paths.len() ==> !existing.contains(#[trigger] paths[i]),
    decreases paths.len() - from,
{
    if from < paths.len() && !existing.contains(paths[from]) {
        lemma_first_existing(paths, existing, from + 1);
        if let Some(p) = first_existing(paths, existing, from + 1) {
            let i = choose|i: int|
                from + 1 <= i < paths.len() && paths[i] == p && forall|j: int|
                    from + 1 <= j < i ==> !existing.contains(#[trigger] paths[j]);
            assert(from <= i < paths.len() && paths[i] == p && forall|j: int|
                from <= j < i ==> !existing.contains(#[trigger] paths[j]));
        }
    } else if from < paths.len() {
        assert(paths[from] == paths[from]);
    }
}

/// A header or footer variant is tried first: where a file of the variant
/// exists, the variant's path is chosen; the plain kind is used only where no
/// file of the variant exists, and always where no variant is asked for.
pub proof fn lemma_variant_tried_first(
    dirs: Seq<Seq<char>>,
    ext: Seq<char>,
    kind: Seq<char>,
    v: Seq<char>,
    existing: Seq<Seq<char>>,
)
    ensures
        resolved(dirs, ext, kind + seq!['-'] + v, existing) matches Some(p) ==> resolved_variant(
            dirs,
            ext,
            kind,
            Some(v),
            existing,
        ) == Some(p),
        resolved(dirs, ext, kind + seq!['-'] + v, existing) is None ==> resolved_variant(
            dirs,
            ext,
            kind,
            Some(v),
            existing,
        ) == resolved(dirs, ext, kind, existing),
        resolved_variant(dirs, ext, kind, None, existing) == resolved(dirs, ext, kind, existing),
{
}

/// The paths that an include request may read, in search order: for a header
/// or footer variant, those of the variant and then those of the plain one.
pub open spec fn request_candidates(dirs: Seq<Seq<char>>, ext: Seq<char>, r: Inclusion) -> Seq<
    Seq<char>,
> {
    match r {
        Inclusion::Template(n) => candidates(dirs, ext, n),
        Inclusion::Header(Some(v)) => candidates(dirs, ext, "header"@ + seq!['-'] + v) + candidates(
            dirs,
            ext,
            "header"@,
        ),
        Inclusion::Header(None) => candidates(dirs, ext, "header"@),
        Inclusion::Footer(Some(v)) => candidates(dirs, ext, "footer"@ + seq!['-'] + v) + candidates(
            dirs,
            ext,
            "footer"@,
        ),
        Inclusion::Footer(None) => candidates(dirs, ext, "footer"@),
    }
}

/// The path an include request resolves to, given the paths that exist, and
/// the name reported where none does.
pub open spec fn resolved_request(
    dirs: Seq<Seq<char>>,
    ext: Seq<char>,
    r: Inclusion,
    existing: Seq<Seq<char>>,
) -> (Option<Seq<char>>, Seq<char>) {
    match r {
        Inclusion::Template(n) => (resolved(dirs, ext, n, existing), n),
        Inclusion::Header(v) => (resolved_variant(dirs, ext, "header"@, v, existing), "header"@),
        Inclusion::Footer(v) => (resolved_variant(dirs, ext, "footer"@, v, existing), "footer"@),
    }
}

/// Finds template files in the configured paths.
pub struct TemplateResolver {
    template_paths: Vec<String>,
    extension: String,
}

impl TemplateResolver {
    /// The directories searched, in order.
    pub closed spec fn dirs(&self) -> Seq<Seq<char>> {
        strings_view(self.template_paths@)
    }

    /// The extension of template files.
    pub closed spec fn ext(&self) -> Seq<char> {
        self.extension@
    }

    /// A resolver for the paths and extension of a configuration; this never fails.
    pub fn new(config: &LuminessConfig) -> (r: Result<Self, LuminessError>)
        ensures
            r matches Ok(res) && res.dirs() == strings_view(config.template_paths@) && res.ext()
                == config.extension@,
    {
        Ok(TemplateResolver {
            template_paths: clone_strings(&config.template_paths),
            extension: config.extension.clone(),
        })
    }

    /// The paths where template `name` may stand, in search order.
    pub fn candidate_paths(&self, name: &str) -> (r: Vec<String>)
        ensures
            strings_view(r@) == candidates(self.dirs(), self.ext(), name@),
    {
        let ghost want = candidates(self.dirs(), self.ext(), name@);
        let mut file = to_owned_string(name);
        push_char(&mut file, '.');
        file.append(self.extension.as_str());
        let mut r: Vec<String> = Vec::new();
        let mut i: usize = 0;
        while i < self.template_paths.len()
            invariant
                i <= self.template_paths@.len(),
                want == candidates(self.dirs(), self.ext(), name@),
                file@ == file_name(name@, self.ext()),
                r@.len() == i,
                forall|k: int| 0 <= k < i ==> #[trigger] r@[k]@ == want[k],
            decreases self.template_paths.len() - i,
        {
            let p = join(&self.template_paths[i], &file);
            assert(self.dirs()[i as int] == self.template_paths@[i as int]@);
            r.push(p);
            i = i + 1;
        }
        assert(strings_view(r@) =~= want);
        r
    }

    /// The first path of template `name` that is among `existing`, or a
    /// not-found error that lists the searched directories.
    pub fn resolve_template(&self, name: &str, existing: &Vec<String>) -> (r: Result<
        String,
        LuminessError,
    >)
        ensures
            match resolved(self.dirs(), self.ext(), name@, strings_view(existing@)) {
                Some(p) => r matches Ok(s) && s@ == p,
                None => r matches Err(e) && e matches LuminessError::TemplateNotFound {
                    name: n,
                    searched_paths: sp,
                } && n@ == name@ && strings_view(sp@) == self.dirs(),
            },
    {
        let paths = self.candidate_paths(name);
        let ghost pv = strings_view(paths@);
        let ghost ev = strings_view(existing@);
        let mut i: usize = 0;
        while i < paths.len()
            invariant
                i <= paths@.len(),
                pv == strings_view(paths@),
                ev == strings_view(existing@),
                pv == candidates(self.dirs(), self.ext(), name@),
                first_existing(pv, ev, 0) == first_existing(pv, ev, i as int),
            decreases paths.len() - i,
        {
            assert(pv[i as int] == paths@[i as int]@);
            if contains_string(existing, &paths[i]) {
                let found = paths[i].clone();
                return Ok(found);
            }
            i = i + 1;
        }
        Err(LuminessError::template_not_found_with_paths(name, clone_strings(&self.template_paths)))
    }

    /// The header path: `header-<variant>` where it exists, else `header`.
    pub fn resolve_header(&self, variant: Option<&str>, existing: &Vec<String>) -> (r: Result<
        String,
        LuminessError,
    >)
        ensures
            match resolved_variant(
                self.dirs(),
                self.ext(),
                "header"@,
                match variant {
                    Some(v) => Some(v@),
                    None => None,
                },
                strings_view(existing@),
            ) {
                Some(p) => r matches Ok(s) && s@ == p,
                None => r matches Err(e) && e matches LuminessError::TemplateNotFound {
                    name: n,
                    searched_paths: sp,
                } && n@ == "header"@ && strings_view(sp@) == self.dirs(),
            },
    {
        self.resolve_variant("header", variant, existing)
    }

    /// The footer path: `footer-<variant>` where it exists, else `footer`.
    pub fn resolve_footer(&self, variant: Option<&str>, existing: &Vec<String>) -> (r: Result<
        String,
        LuminessError,
    >)
        ensures
            match resolved_variant(
                self.dirs(),
                self.ext(),
                "footer"@,
                match variant {
                    Some(v) => Some(v@),
                    None => None,
                },
                strings_view(existing@),
            ) {
                Some(p) => r matches Ok(s) && s@ == p,
                None => r matches Err(e) && e matches LuminessError::TemplateNotFound {
                    name: n,
                    searched_paths: sp,
                } && n@ == "footer"@ && strings_view(sp@) == self.dirs(),
            },
    {
        self.resolve_variant("footer", variant, existing)
    }

    fn resolve_variant(&self, kind: &str, variant: Option<&str>, existing: &Vec<String>) -> (r:
        Result<String, LuminessError>)
        ensures
            match resolved_variant(
                self.dirs(),
                self.ext(),
                kind@,
                match variant {
                    Some(v) => Some(v@),
                    None => None,
                },
                strings_view(existing@),
            ) {
                Some(p) => r matches Ok(s) && s@ == p,
                None => r matches Err(e) && e matches LuminessError::TemplateNotFound {
                    name: n,
                    searched_paths: sp,
                } && n@ == kind@ && strings_view(sp@) == self.dirs(),
            },
    {
        if let Some(v) = variant {
            let mut variant_name = to_owned_string(kind);
            push_char(&mut variant_name, '-');
            variant_name.append(v);
            assert(variant_name@ =~= kind@ + seq!['-'] + v@);
            if let Ok(path) = self.resolve_template(variant_name.as_str(), existing) {
                return Ok(path);
            }
        }
        self.resolve_template(kind, existing)
    }

    /// The paths that an include request may read, in search order.
    pub fn request_paths(&self, request: &IncludeRequest) -> (r: Vec<String>)
        ensures
            strings_view(r@) == request_candidates(self.dirs(), self.ext(), inclusion_view(*request)),
    {
        match request {
            IncludeRequest::Template(n) => self.candidate_paths(n.as_str()),
            IncludeRequest::Header(v) => self.variant_paths("header", v),
            IncludeRequest::Footer(v) => self.variant_paths("footer", v),
        }
    }

    fn variant_paths(&self, kind: &str, variant: &Option<String>) -> (r: Vec<String>)
        ensures
            strings_view(r@) == match opt_view(*variant) {
                Some(v) => candidates(self.dirs(), self.ext(), kind@ + seq!['-'] + v) + candidates(
                    self.dirs(),
                    self.ext(),
                    kind@,
                ),
                None => candidates(self.dirs(), self.ext(), kind@),
            },
    {
        match variant {
            Some(v) => {
                let mut name = to_owned_string(kind);
                push_char(&mut name, '-');
                name.append(v.as_str());
                assert(name@ =~= kind@ + seq!['-'] + v@);
                let mut first = self.candidate_paths(name.as_str());
                let mut rest = self.candidate_paths(kind);
                let ghost a = first@;
                let ghost b = rest@;
                first.append(&mut rest);
                assert(strings_view(first@) =~= strings_view(a) + strings_view(b));
                first
            },
            None => self.candidate_paths(kind),
        }
    }

    /// The path that an include request resolves to among `existing`: a
    /// template by name, a header or footer with its variant fallback.
    pub fn resolve_request(&self, request: &IncludeRequest, existing: &Vec<String>) -> (r: Result<
        String,
        LuminessError,
    >)
        ensures
            ({
                let res = resolved_request(
                    self.dirs(),
                    self.ext(),
                    inclusion_view(*request),
                    strings_view(existing@),
                );
                match res.0 {
                    Some(p) => r matches Ok(s) && s@ == p,
                    None => r matches Err(e) && e matches LuminessError::TemplateNotFound {
                        name: n,
                        searched_paths: sp,
                    } && n@ == res.1 && strings_view(sp@) == self.dirs(),
                }
            }),
    {
        match request {
            IncludeRequest::Template(n) => self.resolve_template(n.as_str(), existing),
            IncludeRequest::Header(Some(v)) => self.resolve_variant("header", Some(v.as_str()), existing),
            IncludeRequest::Header(None) => self.resolve_variant("header", None, existing),
            IncludeRequest::Footer(Some(v)) => self.resolve_variant("footer", Some(v.as_str()), existing),
            IncludeRequest::Footer(None) => self.resolve_variant("footer", None, existing),
        }
    }

    /// The directories searched, in order.
    pub fn template_paths(&self) -> (r: &[String])
        ensures
            strings_view(r@) == self.dirs(),
    {
        self.template_paths.as_slice()
    }

    /// The extension of template files.
    pub fn extension(&self) -> (r: &str)
        ensures
            r@ == self.ext(),
    {
        self.extension.as_str()
    }
}

/// `dir` joined with `file` as a path.
fn join(dir: &String, file: &String) -> (r: String)
    ensures
        r@ == join_path(dir@, file@),
{
    let f = file.as_str();
    let fv = crate::text::chars_of(f);
    let dv = crate::text::chars_of(dir.as_str());
    if fv.len() > 0 && fv[0] == '/' {
        return file.clone();
    }
    let mut r = dir.clone();
    if !(dv.len() == 0 || dv[dv.len() - 1] == '/') {
        push_char(&mut r, '/');
    }
    r.append(f);
    r
}

/// Whether `v` holds a string with the characters of `s`.
fn contains_string(v: &Vec<String>, s: &String) -> (b: bool)
    ensures
        b == strings_view(v@).contains(s@),
{
    let ghost sv = strings_view(v@);
    let mut i: usize = 0;
    while i < v.len()
        invariant
            i <= v@.len(),
            sv == strings_view(v@),
            forall|k: int| 0 <= k < i ==> sv[k] != s@,
        decreases v.len() - i,
    {
        if v[i] == *s {
            assert(sv[i as int] == s@);
            return true;
        }
        i = i + 1;
    }
    false
}

} // verus!
