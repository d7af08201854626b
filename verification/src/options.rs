//! How a document is parsed.

use crate::attributes::{AttributeValue, DocumentAttributes, ValueV};
use crate::error::opt_view;
use crate::file_resolver::DynFileResolver;
use std::borrow::Cow;
use vstd::prelude::*;
use vstd::std_specs::convert::IntoSpec;
use vstd::string::*;

verus! {

/// What a document may do: the higher the level, the less.
#[derive(Clone, Copy, Debug, PartialEq, Eq, Structural)]
pub enum SafeMode {
    Unsafe,
    Safe,
    Server,
    Secure,
}

impl Default for SafeMode {
    /// No restriction.
    fn default() -> (r: SafeMode)
        ensures
            r == SafeMode::Unsafe,
    {
        SafeMode::Unsafe
    }
}

/// How a document is parsed.
#[non_exhaustive]
pub struct Options<'a> {
    pub safe_mode: SafeMode,
    /// Whether times are measured.
    pub timings: bool,
    pub document_attributes: DocumentAttributes<'a>,
    /// Whether what does not conform fails, where it would be worked round with a
    /// warning.
    pub strict: bool,
    /// Whether headers may be underlined.
    pub setext: bool,
    /// Where included files are read from; `None` stands for the file system.
    pub file_resolver: Option<DynFileResolver>,
    /// The path that the targets of includes are relative to. Without one, and
    /// without a file that the document is read from, there are no includes.
    pub virtual_current_file: Option<String>,
    /// Whether an include that gives no content is to leave nothing in the text, for an
    /// embedder that shows it in its own way.
    pub dropped_unresolved_includes: bool,
}

/// A way to put options together.
#[non_exhaustive]
pub struct OptionsBuilder<'a> {
    safe_mode: SafeMode,
    timings: bool,
    document_attributes: DocumentAttributes<'a>,
    strict: bool,
    setext: bool,
    file_resolver: Option<DynFileResolver>,
    virtual_current_file: Option<String>,
    dropped_unresolved_includes: bool,
}

/// What options say.
#[verifier::ext_equal]
pub struct OptionsV {
    pub safe_mode: SafeMode,
    pub timings: bool,
    pub attributes: Map<Seq<char>, (ValueV, bool)>,
    pub strict: bool,
    pub setext: bool,
    pub file_resolver: Option<DynFileResolver>,
    pub virtual_current_file: Option<Seq<char>>,
    pub dropped_unresolved_includes: bool,
}

/// A path that may be missing.
pub open spec fn path_view(path: Option<String>) -> Option<Seq<char>> {
    match path {
        Some(p) => Some(p@),
        None => None,
    }
}

impl<'a> View for Options<'a> {
    type V = OptionsV;

    open spec fn view(&self) -> OptionsV {
        OptionsV {
            safe_mode: self.safe_mode,
            timings: self.timings,
            attributes: self.document_attributes@,
            strict: self.strict,
            setext: self.setext,
            file_resolver: self.file_resolver,
            virtual_current_file: path_view(self.virtual_current_file),
            dropped_unresolved_includes: self.dropped_unresolved_includes,
        }
    }
}

impl<'a> View for OptionsBuilder<'a> {
    type V = OptionsV;

    closed spec fn view(&self) -> OptionsV {
        OptionsV {
            safe_mode: self.safe_mode,
            timings: self.timings,
            attributes: self.document_attributes@,
            strict: self.strict,
            setext: self.setext,
            file_resolver: self.file_resolver,
            virtual_current_file: path_view(self.virtual_current_file),
            dropped_unresolved_includes: self.dropped_unresolved_includes,
        }
    }
}

/// The options that nothing was said of.
pub open spec fn default_options() -> OptionsV {
    OptionsV {
        safe_mode: SafeMode::Unsafe,
        timings: false,
        attributes: Map::empty(),
        strict: false,
        setext: false,
        file_resolver: None,
        virtual_current_file: None,
        dropped_unresolved_includes: false,
    }
}

// ---------------------------------------------------------------------------
// Built-in attributes.
// ---------------------------------------------------------------------------

/// The name of a safe mode.
pub open spec fn safe_mode_name(mode: SafeMode) -> Seq<char> {
    match mode {
        SafeMode::Unsafe => "unsafe"@,
        SafeMode::Safe => "safe"@,
        SafeMode::Server => "server"@,
        SafeMode::Secure => "secure"@,
    }
}

/// The level of a safe mode, as a text.
pub open spec fn safe_mode_level(mode: SafeMode) -> Seq<char> {
    match mode {
        SafeMode::Unsafe => "0"@,
        SafeMode::Safe => "1"@,
        SafeMode::Server => "10"@,
        SafeMode::Secure => "20"@,
    }
}

/// The attribute that marks a safe mode.
pub open spec fn safe_mode_marker(mode: SafeMode) -> Seq<char> {
    match mode {
        SafeMode::Unsafe => "safe-mode-unsafe"@,
        SafeMode::Safe => "safe-mode-safe"@,
        SafeMode::Server => "safe-mode-server"@,
        SafeMode::Secure => "safe-mode-secure"@,
    }
}

/// The built-in attributes in order: name and value.
pub open spec fn builtins(mode: SafeMode) -> Seq<(Seq<char>, Seq<char>)> {
    seq![
        ("safe-mode-name"@, safe_mode_name(mode)),
        ("safe-mode-level"@, safe_mode_level(mode)),
        (safe_mode_marker(mode), ""@),
        ("asciidoctor"@, ""@),
        ("asciidoctor-version"@, "0.1.0-acdc"@),
        ("backend"@, "html5"@),
        ("backend-html5"@, ""@),
        ("basebackend"@, "html"@),
        ("basebackend-html"@, ""@),
        ("filetype"@, "html"@),
        ("filetype-html"@, ""@),
        ("doctype"@, "article"@),
        ("doctype-article"@, ""@),
    ]
}

/// The attributes with a default added.
pub open spec fn with_default(
    attributes: Map<Seq<char>, (ValueV, bool)>,
    name: Seq<char>,
    value: Seq<char>,
) -> Map<Seq<char>, (ValueV, bool)> {
    if attributes.contains_key(name) {
        attributes
    } else {
        attributes.insert(name, (ValueV::Text(value), false))
    }
}

/// The attributes with the first `n` of some defaults added.
pub open spec fn with_defaults(
    attributes: Map<Seq<char>, (ValueV, bool)>,
    defaults: Seq<(Seq<char>, Seq<char>)>,
    n: nat,
) -> Map<Seq<char>, (ValueV, bool)>
    decreases n,
{
    if n == 0 || n > defaults.len() {
        attributes
    } else {
        with_default(
            with_defaults(attributes, defaults, (n - 1) as nat),
            defaults[n - 1].0,
            defaults[n - 1].1,
        )
    }
}

/// The attributes with the built-in ones added.
pub open spec fn with_builtins(
    attributes: Map<Seq<char>, (ValueV, bool)>,
    mode: SafeMode,
) -> Map<Seq<char>, (ValueV, bool)> {
    with_defaults(attributes, builtins(mode), builtins(mode).len())
}

proof fn lemma_with_defaults(
    attributes: Map<Seq<char>, (ValueV, bool)>,
    defaults: Seq<(Seq<char>, Seq<char>)>,
    n: nat,
)
    requires
        n <= defaults.len(),
    ensures
        forall|name: Seq<char>|
            #![trigger with_defaults(attributes, defaults, n).contains_key(name)]
            attributes.contains_key(name) ==> with_defaults(
                attributes,
                defaults,
                n,
            ).contains_key(name) && with_defaults(attributes, defaults, n)[name]
                == attributes[name],
        forall|name: Seq<char>|
            #![trigger with_defaults(attributes, defaults, n).contains_key(name)]
            with_defaults(attributes, defaults, n).contains_key(name) && !attributes.contains_key(
                name,
            ) ==> !with_defaults(attributes, defaults, n)[name].1,
        forall|k: int|
            #![trigger defaults[k]]
            0 <= k < n ==> with_defaults(attributes, defaults, n).contains_key(defaults[k].0),
    decreases n,
{
    if n > 0 {
        lemma_with_defaults(attributes, defaults, (n - 1) as nat);
        let before = with_defaults(attributes, defaults, (n - 1) as nat);
        assert forall|name: Seq<char>|
            #![trigger with_defaults(attributes, defaults, n).contains_key(name)]
            attributes.contains_key(name) implies with_defaults(
            attributes,
            defaults,
            n,
        ).contains_key(name) && with_defaults(attributes, defaults, n)[name]
            == attributes[name] by {
            assert(before.contains_key(name));
        }
        assert forall|name: Seq<char>|
            #![trigger with_defaults(attributes, defaults, n).contains_key(name)]
            with_defaults(attributes, defaults, n).contains_key(name) && !attributes.contains_key(
                name,
            ) implies !with_defaults(attributes, defaults, n)[name].1 by {
            if before.contains_key(name) {
                assert(!before[name].1);
            }
        }
    }
}

proof fn lemma_with_defaults_again(
    attributes: Map<Seq<char>, (ValueV, bool)>,
    defaults: Seq<(Seq<char>, Seq<char>)>,
    n: nat,
)
    requires
        n <= defaults.len(),
        forall|k: int|
            #![trigger defaults[k]]
            0 <= k < defaults.len() ==> attributes.contains_key(defaults[k].0),
    ensures
        with_defaults(attributes, defaults, n) == attributes,
    decreases n,
{
    if n > 0 {
        lemma_with_defaults_again(attributes, defaults, (n - 1) as nat);
    }
}

/// Adding the built-in attributes keeps every attribute that is there, makes none
/// explicit, and defines all of them; adding them again changes nothing.
pub proof fn law_builtins(attributes: Map<Seq<char>, (ValueV, bool)>, mode: SafeMode)
    ensures
        forall|name: Seq<char>|
            #![trigger with_builtins(attributes, mode).contains_key(name)]
            attributes.contains_key(name) ==> with_builtins(attributes, mode).contains_key(name)
                && with_builtins(attributes, mode)[name] == attributes[name],
        forall|name: Seq<char>|
            #![trigger with_builtins(attributes, mode).contains_key(name)]
            with_builtins(attributes, mode).contains_key(name) && !attributes.contains_key(name)
                ==> !with_builtins(attributes, mode)[name].1,
        forall|k: int|
            #![trigger builtins(mode)[k]]
            0 <= k < builtins(mode).len() ==> with_builtins(attributes, mode).contains_key(
                builtins(mode)[k].0,
            ),
        with_builtins(with_builtins(attributes, mode), mode) == with_builtins(attributes, mode),
{
    let defaults = builtins(mode);
    lemma_with_defaults(attributes, defaults, defaults.len());
    lemma_with_defaults_again(
        with_defaults(attributes, defaults, defaults.len()),
        defaults,
        defaults.len(),
    );
}

proof fn lemma_default_kept(
    attributes: Map<Seq<char>, (ValueV, bool)>,
    defaults: Seq<(Seq<char>, Seq<char>)>,
    k: int,
    n: nat,
)
    requires
        0 <= k < n <= defaults.len(),
        !attributes.contains_key(defaults[k].0),
        forall|j: int| 0 <= j < k ==> (#[trigger] defaults[j]).0 != defaults[k].0,
    ensures
        with_defaults(attributes, defaults, n).contains_key(defaults[k].0),
        with_defaults(attributes, defaults, n)[defaults[k].0] == (
            ValueV::Text(defaults[k].1),
            false,
        ),
    decreases n,
{
    if n > k + 1 {
        lemma_default_kept(attributes, defaults, k, (n - 1) as nat);
    } else {
        lemma_default_absent(attributes, defaults, defaults[k].0, (n - 1) as nat);
    }
}

proof fn lemma_default_absent(
    attributes: Map<Seq<char>, (ValueV, bool)>,
    defaults: Seq<(Seq<char>, Seq<char>)>,
    name: Seq<char>,
    n: nat,
)
    requires
        n <= defaults.len(),
        !attributes.contains_key(name),
        forall|j: int| 0 <= j < n ==> (#[trigger] defaults[j]).0 != name,
    ensures
        !with_defaults(attributes, defaults, n).contains_key(name),
    decreases n,
{
    if n > 0 {
        lemma_default_absent(attributes, defaults, name, (n - 1) as nat);
        assert(defaults[n - 1].0 != name);
    }
}

/// The built-in attributes tell the safe mode by its name, its level and a mark of its own,
/// and what is made: an article in HTML. An attribute that is there already keeps its
/// value.
pub proof fn law_values_of_the_builtins(
    attributes: Map<Seq<char>, (ValueV, bool)>,
    mode: SafeMode,
)
    ensures
        !attributes.contains_key("safe-mode-name"@) ==> with_builtins(
            attributes,
            mode,
        )["safe-mode-name"@] == (
            ValueV::Text(
                match mode {
                    SafeMode::Unsafe => "unsafe"@,
                    SafeMode::Safe => "safe"@,
                    SafeMode::Server => "server"@,
                    SafeMode::Secure => "secure"@,
                },
            ),
            false,
        ),
        !attributes.contains_key("safe-mode-level"@) ==> with_builtins(
            attributes,
            mode,
        )["safe-mode-level"@] == (
            ValueV::Text(
                match mode {
                    SafeMode::Unsafe => "0"@,
                    SafeMode::Safe => "1"@,
                    SafeMode::Server => "10"@,
                    SafeMode::Secure => "20"@,
                },
            ),
            false,
        ),
        with_builtins(attributes, mode).contains_key(
            match mode {
                SafeMode::Unsafe => "safe-mode-unsafe"@,
                SafeMode::Safe => "safe-mode-safe"@,
                SafeMode::Server => "safe-mode-server"@,
                SafeMode::Secure => "safe-mode-secure"@,
            },
        ),
        !attributes.contains_key("backend"@) ==> with_builtins(attributes, mode)["backend"@] == (
            ValueV::Text("html5"@),
            false,
        ),
        !attributes.contains_key("basebackend"@) ==> with_builtins(attributes, mode)["basebackend"@]
            == (ValueV::Text("html"@), false),
        !attributes.contains_key("filetype"@) ==> with_builtins(attributes, mode)["filetype"@] == (
            ValueV::Text("html"@),
            false,
        ),
        !attributes.contains_key("doctype"@) ==> with_builtins(attributes, mode)["doctype"@] == (
            ValueV::Text("article"@),
            false,
        ),
{
    let d = builtins(mode);
    law_builtins(attributes, mode);
    reveal_strlit("safe-mode-name");
    reveal_strlit("safe-mode-level");
    reveal_strlit("safe-mode-unsafe");
    reveal_strlit("safe-mode-safe");
    reveal_strlit("safe-mode-server");
    reveal_strlit("safe-mode-secure");
    reveal_strlit("asciidoctor");
    reveal_strlit("asciidoctor-version");
    reveal_strlit("backend");
    reveal_strlit("backend-html5");
    reveal_strlit("basebackend");
    reveal_strlit("basebackend-html");
    reveal_strlit("filetype");
    reveal_strlit("filetype-html");
    reveal_strlit("doctype");
    assert(d[2].0 == safe_mode_marker(mode));
    assert("basebackend"@[0] == 'b' && "asciidoctor"@[0] == 'a');
    assert("backend"@[0] == 'b' && "doctype"@[0] == 'd');
    assert(d[0].0.len() == 14 && d[1].0.len() == 15);
    assert(d[0].0 != d[1].0);
    assert(d[3].0[0] == 'a' && d[7].0[0] == 'b');
    assert(d[7].0.len() == 11 && d[4].0.len() == 19 && d[5].0.len() == 7 && d[6].0.len() == 13);
    assert(d[2].0.len() == 14 || d[2].0.len() == 16);
    assert forall|j: int| 0 <= j < 7 implies (#[trigger] d[j]).0 != d[7].0 by {
        assert(j == 3 || d[j].0.len() != 11);
    }
    assert(d[8].0.len() == 16 && d[9].0.len() == 8);
    assert forall|j: int| 0 <= j < 9 implies (#[trigger] d[j]).0 != d[9].0 by {
        assert(d[j].0.len() != 8);
    }
    if !attributes.contains_key("safe-mode-name"@) {
        lemma_default_kept(attributes, d, 0, d.len());
    }
    if !attributes.contains_key("safe-mode-level"@) {
        lemma_default_kept(attributes, d, 1, d.len());
    }
    if !attributes.contains_key("backend"@) {
        lemma_default_kept(attributes, d, 5, d.len());
    }
    if !attributes.contains_key("basebackend"@) {
        lemma_default_kept(attributes, d, 7, d.len());
    }
    if !attributes.contains_key("filetype"@) {
        lemma_default_kept(attributes, d, 9, d.len());
    }
    if !attributes.contains_key("doctype"@) {
        lemma_default_kept(attributes, d, 11, d.len());
    }
}

/// A safe mode is found again by its name, and nothing else is the name of one.
pub proof fn law_names_of_the_safe_modes(name: Seq<char>)
    ensures
        safe_mode_of(name) == Some(SafeMode::Unsafe) <==> name == "unsafe"@,
        safe_mode_of(name) == Some(SafeMode::Safe) <==> name == "safe"@,
        safe_mode_of(name) == Some(SafeMode::Server) <==> name == "server"@,
        safe_mode_of(name) == Some(SafeMode::Secure) <==> name == "secure"@,
        safe_mode_of(name) is None <==> name != "unsafe"@ && name != "safe"@ && name != "server"@
            && name != "secure"@,
{
    reveal_strlit("unsafe");
    reveal_strlit("safe");
    reveal_strlit("server");
    reveal_strlit("secure");
    assert("unsafe"@[0] == 'u' && "server"@[0] == 's' && "secure"@[0] == 's');
    assert("server"@[2] == 'r' && "secure"@[2] == 'c');
}

// ---------------------------------------------------------------------------
// Executable operations.
// ---------------------------------------------------------------------------

/// The safe mode of a name, if there is one.
pub open spec fn safe_mode_of(name: Seq<char>) -> Option<SafeMode> {
    if name == safe_mode_name(SafeMode::Unsafe) {
        Some(SafeMode::Unsafe)
    } else if name == safe_mode_name(SafeMode::Safe) {
        Some(SafeMode::Safe)
    } else if name == safe_mode_name(SafeMode::Server) {
        Some(SafeMode::Server)
    } else if name == safe_mode_name(SafeMode::Secure) {
        Some(SafeMode::Secure)
    } else {
        None
    }
}

impl SafeMode {
    /// The safe mode of a name, if there is one.
    pub fn from_name(name: &str) -> (r: Option<SafeMode>)
        ensures
            r == safe_mode_of(name@),
    {
        if crate::text::same_chars(name, "unsafe") {
            Some(SafeMode::Unsafe)
        } else if crate::text::same_chars(name, "safe") {
            Some(SafeMode::Safe)
        } else if crate::text::same_chars(name, "server") {
            Some(SafeMode::Server)
        } else if crate::text::same_chars(name, "secure") {
            Some(SafeMode::Secure)
        } else {
            None
        }
    }
}

impl<'a> Clone for Options<'a> {
    /// Options that say the same, and share the source of files.
    fn clone(&self) -> (r: Options<'a>)
        ensures
            r@ == self@,
    {
        Options {
            safe_mode: self.safe_mode,
            timings: self.timings,
            document_attributes: self.document_attributes.clone(),
            strict: self.strict,
            setext: self.setext,
            file_resolver: match &self.file_resolver {
                Some(resolver) => Some(resolver.clone()),
                None => None,
            },
            virtual_current_file: match &self.virtual_current_file {
                Some(path) => Some(path.clone()),
                None => None,
            },
            dropped_unresolved_includes: self.dropped_unresolved_includes,
        }
    }
}

impl<'a> Default for Options<'a> {
    /// The options that nothing was said of.
    fn default() -> (r: Options<'a>)
        ensures
            r@ == default_options(),
    {
        Options {
            safe_mode: SafeMode::default(),
            timings: false,
            document_attributes: DocumentAttributes::default(),
            strict: false,
            setext: false,
            file_resolver: None,
            virtual_current_file: None,
            dropped_unresolved_includes: false,
        }
    }
}

impl<'a> Clone for OptionsBuilder<'a> {
    /// Options that say the same, and share the source of files.
    fn clone(&self) -> (r: OptionsBuilder<'a>)
        ensures
            r@ == self@,
    {
        OptionsBuilder {
            safe_mode: self.safe_mode,
            timings: self.timings,
            document_attributes: self.document_attributes.clone(),
            strict: self.strict,
            setext: self.setext,
            file_resolver: match &self.file_resolver {
                Some(resolver) => Some(resolver.clone()),
                None => None,
            },
            virtual_current_file: match &self.virtual_current_file {
                Some(path) => Some(path.clone()),
                None => None,
            },
            dropped_unresolved_includes: self.dropped_unresolved_includes,
        }
    }
}

impl<'a> Default for OptionsBuilder<'a> {
    /// The options that nothing was said of.
    fn default() -> (r: OptionsBuilder<'a>)
        ensures
            r@ == default_options(),
    {
        OptionsBuilder {
            safe_mode: SafeMode::default(),
            timings: false,
            document_attributes: DocumentAttributes::default(),
            strict: false,
            setext: false,
            file_resolver: None,
            virtual_current_file: None,
            dropped_unresolved_includes: false,
        }
    }
}

fn add_default<'a>(attributes: &mut DocumentAttributes<'a>, name: &'static str, value: &'static str)
    ensures
        final(attributes)@ == with_default(old(attributes)@, name@, value@),
{
    attributes.insert_default(Cow::Borrowed(name), AttributeValue::String(Cow::Borrowed(value)));
}

impl<'a> Options<'a> {
    /// A way to put options together.
    #[must_use]
    pub fn builder() -> (r: OptionsBuilder<'a>)
        ensures
            r@ == default_options(),
    {
        OptionsBuilder::default()
    }

    /// The options that nothing was said of.
    #[must_use]
    pub fn new() -> (r: Options<'a>)
        ensures
            r@ == default_options(),
    {
        Options::default()
    }

    /// Options with the given attributes.
    #[must_use]
    pub fn with_attributes(document_attributes: DocumentAttributes<'a>) -> (r: Options<'a>)
        ensures
            r@ == (OptionsV { attributes: document_attributes@, ..default_options() }),
    {
        let mut options = Options::default();
        options.document_attributes = document_attributes;
        options
    }

    /// The same options, on their own.
    #[must_use]
    pub fn into_static(self) -> (r: Options<'static>)
        ensures
            r@ == self@,
    {
        Options {
            safe_mode: self.safe_mode,
            timings: self.timings,
            document_attributes: self.document_attributes.into_static(),
            strict: self.strict,
            setext: self.setext,
            file_resolver: self.file_resolver,
            virtual_current_file: self.virtual_current_file,
            dropped_unresolved_includes: self.dropped_unresolved_includes,
        }
    }

    /// Add the built-in attributes, for the safe mode, to those that are there.
    #[must_use]
    pub fn with_runtime_builtins(self) -> (r: Options<'a>)
        ensures
            r@ == (OptionsV { attributes: with_builtins(self@.attributes, self.safe_mode), ..self@ }),
    {
        let mut options = self;
        let mode = options.safe_mode;
        let (name, level, marker) = match mode {
            SafeMode::Unsafe => ("unsafe", "0", "safe-mode-unsafe"),
            SafeMode::Safe => ("safe", "1", "safe-mode-safe"),
            SafeMode::Server => ("server", "10", "safe-mode-server"),
            SafeMode::Secure => ("secure", "20", "safe-mode-secure"),
        };
        let mut attrs = options.document_attributes;
        let ghost start = attrs@;
        add_default(&mut attrs, "safe-mode-name", name);
        add_default(&mut attrs, "safe-mode-level", level);
        add_default(&mut attrs, marker, "");
        add_default(&mut attrs, "asciidoctor", "");
        add_default(&mut attrs, "asciidoctor-version", "0.1.0-acdc");
        add_default(&mut attrs, "backend", "html5");
        add_default(&mut attrs, "backend-html5", "");
        add_default(&mut attrs, "basebackend", "html");
        add_default(&mut attrs, "basebackend-html", "");
        add_default(&mut attrs, "filetype", "html");
        add_default(&mut attrs, "filetype-html", "");
        add_default(&mut attrs, "doctype", "article");
        add_default(&mut attrs, "doctype-article", "");
        proof {
            assert(builtins(mode).len() == 13);
            reveal_with_fuel(with_defaults, 14);
            assert(attrs@ == with_builtins(start, mode));
        }
        options.document_attributes = attrs;
        options
    }
}

impl<'a> OptionsBuilder<'a> {
    /// Set the safe mode.
    #[must_use]
    pub fn with_safe_mode(self, safe_mode: SafeMode) -> (r: OptionsBuilder<'a>)
        ensures
            r@ == (OptionsV { safe_mode, ..self@ }),
    {
        let mut builder = self;
        builder.safe_mode = safe_mode;
        builder
    }

    /// Measure times.
    #[must_use]
    pub fn with_timings(self) -> (r: OptionsBuilder<'a>)
        ensures
            r@ == (OptionsV { timings: true, ..self@ }),
    {
        let mut builder = self;
        builder.timings = true;
        builder
    }

    /// Fail on what does not conform.
    #[must_use]
    pub fn with_strict(self) -> (r: OptionsBuilder<'a>)
        ensures
            r@ == (OptionsV { strict: true, ..self@ }),
    {
        let mut builder = self;
        builder.strict = true;
        builder
    }

    /// Set an attribute to what `value` is converted into.
    #[must_use]
    pub fn with_attribute<V: Into<AttributeValue<'a>>>(self, name: &'a str, value: V) -> (r:
        OptionsBuilder<'a>)
        ensures
            <V as IntoSpec<AttributeValue<'a>>>::obeys_into_spec() ==> r@ == (OptionsV {
                attributes: self@.attributes.insert(
                    name@,
                    (<V as IntoSpec<AttributeValue<'a>>>::into_spec(value)@, true),
                ),
                ..self@
            }),
            exists|held: AttributeValue<'a>| #[trigger]
                call_ensures(<V as Into<AttributeValue<'a>>>::into, (value,), held) && r@ == (
                OptionsV {
                    attributes: self@.attributes.insert(name@, (held@, true)),
                    ..self@
                }),
    {
        let mut builder = self;
        let held: AttributeValue<'a> = value.into();
        builder.document_attributes.insert(Cow::Borrowed(name), held);
        builder
    }

    /// Set all attributes.
    #[must_use]
    pub fn with_attributes(self, document_attributes: DocumentAttributes<'a>) -> (r:
        OptionsBuilder<'a>)
        ensures
            r@ == (OptionsV { attributes: document_attributes@, ..self@ }),
    {
        let mut builder = self;
        builder.document_attributes = document_attributes;
        builder
    }

    /// Take underlined headers.
    #[must_use]
    pub fn with_setext(self) -> (r: OptionsBuilder<'a>)
        ensures
            r@ == (OptionsV { setext: true, ..self@ }),
    {
        let mut builder = self;
        builder.setext = true;
        builder
    }

    /// Read included files from `resolver`.
    #[must_use]
    pub fn with_file_resolver(self, resolver: DynFileResolver) -> (r: OptionsBuilder<'a>)
        ensures
            r@ == (OptionsV { file_resolver: Some(resolver), ..self@ }),
    {
        let mut builder = self;
        builder.file_resolver = Some(resolver);
        builder
    }

    /// Take the targets of includes as relative to `path`.
    #[must_use]
    pub fn with_virtual_current_file(self, path: &str) -> (r: OptionsBuilder<'a>)
        ensures
            r@ == (OptionsV { virtual_current_file: Some(path@), ..self@ }),
    {
        let mut builder = self;
        builder.virtual_current_file = Some(path.to_owned());
        builder
    }

    /// Ask that an include that gives no content leave nothing in the text.
    #[must_use]
    pub fn with_dropped_unresolved_includes(self) -> (r: OptionsBuilder<'a>)
        ensures
            r@ == (OptionsV { dropped_unresolved_includes: true, ..self@ }),
    {
        let mut builder = self;
        builder.dropped_unresolved_includes = true;
        builder
    }

    /// The options.
    #[must_use]
    pub fn build(self) -> (r: Options<'a>)
        ensures
            r@ == self@,
    {
        Options {
            safe_mode: self.safe_mode,
            timings: self.timings,
            document_attributes: self.document_attributes,
            strict: self.strict,
            setext: self.setext,
            file_resolver: self.file_resolver,
            virtual_current_file: self.virtual_current_file,
            dropped_unresolved_includes: self.dropped_unresolved_includes,
        }
    }
}

/// The safe mode that an embedder names: a name that is missing, or that is none,
/// stands for no restriction.
pub open spec fn named_mode(safe_mode: Option<Seq<char>>) -> SafeMode {
    match safe_mode {
        Some(name) => match safe_mode_of(name) {
            Some(mode) => mode,
            None => SafeMode::Unsafe,
        },
        None => SafeMode::Unsafe,
    }
}

fn mode_or_unsafe(safe_mode: Option<&str>) -> (r: SafeMode)
    ensures
        r == named_mode(opt_view(safe_mode)),
{
    match safe_mode {
        Some(name) => match SafeMode::from_name(name) {
            Some(mode) => mode,
            None => SafeMode::Unsafe,
        },
        None => SafeMode::Unsafe,
    }
}

/// The options for a document from an embedder that names a safe mode. The embedder
/// shows the includes that give no content itself.
pub fn build_options(safe_mode: Option<&str>) -> (r: Options<'static>)
    ensures
        r@ == (OptionsV {
            safe_mode: named_mode(opt_view(safe_mode)),
            dropped_unresolved_includes: true,
            ..default_options()
        }),
{
    Options::builder()
        .with_safe_mode(mode_or_unsafe(safe_mode))
        .with_dropped_unresolved_includes()
        .build()
}

/// The options for a document from an embedder that names a safe mode, where the
/// document stands for the file `virtual_current_file` and other files are read from
/// `resolver`. The embedder shows the includes that give no content itself.
pub fn build_options_with_resolver(
    safe_mode: Option<&str>,
    resolver: DynFileResolver,
    virtual_current_file: &str,
) -> (r: Options<'static>)
    ensures
        r@ == (OptionsV {
            safe_mode: named_mode(opt_view(safe_mode)),
            file_resolver: Some(resolver),
            virtual_current_file: Some(virtual_current_file@),
            dropped_unresolved_includes: true,
            ..default_options()
        }),
{
    Options::builder()
        .with_safe_mode(mode_or_unsafe(safe_mode))
        .with_file_resolver(resolver)
        .with_virtual_current_file(virtual_current_file)
        .with_dropped_unresolved_includes()
        .build()
}

} // verus!
