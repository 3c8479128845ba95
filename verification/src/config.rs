//! Configuration: the backend presets, and how file, environment and command
//! line are layered over them, command line last. Reading the file and the
//! environment happens outside; what they say is applied here.

use vstd::prelude::*;
use vstd::string::StringExecFns;

use crate::chunk::ChunkOptions;
use crate::extract::ExtractOptions;
use crate::text::{
    chars_of, clone_strings, fnv1a, fnv1a64, hex16, hex_digits, join, joined, trim,
    trim_end_char, trim_end_matches, trim_ws,
};
use crate::walk::WalkOptions;

verus! {

/// Lexicographic order on character strings. On UTF-8 text it is the byte
/// order that `String` is sorted by.
pub open spec fn text_lt(a: Seq<char>, b: Seq<char>) -> bool
    decreases a.len(),
{
    if a.len() == 0 {
        b.len() > 0
    } else if b.len() == 0 {
        false
    } else if a[0] != b[0] {
        a[0] < b[0]
    } else {
        text_lt(a.drop_first(), b.drop_first())
    }
}

pub proof fn lemma_text_lt_irreflexive(a: Seq<char>)
    ensures
        !text_lt(a, a),
    decreases a.len(),
{
    if a.len() > 0 {
        lemma_text_lt_irreflexive(a.drop_first());
    }
}

pub proof fn lemma_text_lt_transitive(a: Seq<char>, b: Seq<char>, c: Seq<char>)
    requires
        text_lt(a, b),
        text_lt(b, c),
    ensures
        text_lt(a, c),
    decreases a.len(),
{
    if a.len() > 0 && b.len() > 0 && c.len() > 0 && a[0] == b[0] && b[0] == c[0] {
        lemma_text_lt_transitive(a.drop_first(), b.drop_first(), c.drop_first());
    }
}

pub proof fn lemma_text_lt_total(a: Seq<char>, b: Seq<char>)
    requires
        a != b,
    ensures
        text_lt(a, b) || text_lt(b, a),
    decreases a.len(),
{
    if a.len() > 0 && b.len() > 0 && a[0] == b[0] {
        if a.drop_first() == b.drop_first() {
            assert(a =~= seq![a[0]] + a.drop_first());
            assert(b =~= seq![b[0]] + b.drop_first());
        }
        lemma_text_lt_total(a.drop_first(), b.drop_first());
    } else if a.len() == 0 && b.len() == 0 {
        assert(a =~= b);
    }
}

/// Whether `a` sorts before `b`.
pub fn text_less(a: &str, b: &str) -> (r: bool)
    ensures
        r == text_lt(a@, b@),
{
    let x = chars_of(a);
    let y = chars_of(b);
    let mut i: usize = 0;
    assert(a@.skip(0) =~= a@);
    assert(b@.skip(0) =~= b@);
    while i < x.len() && i < y.len() && x[i] == y[i]
        invariant
            x@ == a@,
            y@ == b@,
            i <= x.len(),
            i <= y.len(),
            text_lt(a@, b@) == text_lt(a@.skip(i as int), b@.skip(i as int)),
        decreases x.len() - i,
    {
        assert(a@.skip(i as int).drop_first() =~= a@.skip(i as int + 1));
        assert(b@.skip(i as int).drop_first() =~= b@.skip(i as int + 1));
        i = i + 1;
    }
    if i == x.len() {
        i < y.len()
    } else if i == y.len() {
        false
    } else {
        assert(a@.skip(i as int)[0] == x@[i as int]);
        assert(b@.skip(i as int)[0] == y@[i as int]);
        x[i] < y[i]
    }
}

/// A single backend target: where to reach it and what to ask it for.
pub struct BackendPreset {
    /// Base URL including the API version prefix (`/v1`, `/v3`, …).
    pub base_url: String,
    pub embed_model: String,
    pub chat_model: String,
}

impl View for BackendPreset {
    type V = (Seq<char>, Seq<char>, Seq<char>);

    open spec fn view(&self) -> (Seq<char>, Seq<char>, Seq<char>) {
        (self.base_url@, self.embed_model@, self.chat_model@)
    }
}

impl Clone for BackendPreset {
    fn clone(&self) -> (r: Self)
        ensures
            r@ == self@,
    {
        BackendPreset {
            base_url: String::from_str(self.base_url.as_str()),
            embed_model: String::from_str(self.embed_model.as_str()),
            chat_model: String::from_str(self.chat_model.as_str()),
        }
    }
}

/// The configured presets by name, kept in name order as a sorted map keeps
/// them. A sorted `Vec` rather than a map keyed by `String`, so that which
/// names it holds, and in what order, can be stated and proved.
pub struct Presets {
    entries: Vec<(String, BackendPreset)>,
}

/// The names of a list of entries.
pub open spec fn entry_names(es: Seq<(String, BackendPreset)>) -> Seq<Seq<char>> {
    es.map_values(|e: (String, BackendPreset)| e.0@)
}

/// Strictly increasing, hence free of repeats.
pub open spec fn strictly_sorted(ns: Seq<Seq<char>>) -> bool {
    forall|i: int, j: int| 0 <= i < j < ns.len() ==> text_lt(#[trigger] ns[i], #[trigger] ns[j])
}

/// Where `k` sits in a list of names.
pub open spec fn name_index(ns: Seq<Seq<char>>, k: Seq<char>) -> int {
    choose|i: int| 0 <= i < ns.len() && ns[i] == k
}

/// The map a sorted list of entries stands for.
pub open spec fn entries_map(es: Seq<(String, BackendPreset)>) -> Map<
    Seq<char>,
    (Seq<char>, Seq<char>, Seq<char>),
> {
    Map::new(
        |k: Seq<char>| entry_names(es).contains(k),
        |k: Seq<char>| es[name_index(entry_names(es), k)].1@,
    )
}

proof fn lemma_name_index(ns: Seq<Seq<char>>, i: int)
    requires
        strictly_sorted(ns),
        0 <= i < ns.len(),
    ensures
        name_index(ns, ns[i]) == i,
{
    let j = name_index(ns, ns[i]);
    assert(0 <= j < ns.len() && ns[j] == ns[i]);
    if j < i {
        assert(text_lt(ns[j], ns[i]));
        lemma_text_lt_irreflexive(ns[i]);
    } else if i < j {
        assert(text_lt(ns[i], ns[j]));
        lemma_text_lt_irreflexive(ns[i]);
    }
}

proof fn lemma_entries_map_at(es: Seq<(String, BackendPreset)>, i: int)
    requires
        strictly_sorted(entry_names(es)),
        0 <= i < es.len(),
    ensures
        entries_map(es).contains_key(es[i].0@),
        entries_map(es)[es[i].0@] == es[i].1@,
{
    assert(entry_names(es)[i] == es[i].0@);
    lemma_name_index(entry_names(es), i);
}

impl View for Presets {
    type V = Map<Seq<char>, (Seq<char>, Seq<char>, Seq<char>)>;

    closed spec fn view(&self) -> Map<Seq<char>, (Seq<char>, Seq<char>, Seq<char>)> {
        entries_map(self.entries@)
    }
}

impl Presets {
    #[verifier::type_invariant]
    closed spec fn sorted_by_name(self) -> bool {
        strictly_sorted(entry_names(self.entries@))
    }

    /// The preset names, in order.
    pub closed spec fn names_spec(self) -> Seq<Seq<char>> {
        entry_names(self.entries@)
    }

    pub fn new() -> (p: Self)
        ensures
            p@ == Map::<Seq<char>, (Seq<char>, Seq<char>, Seq<char>)>::empty(),
    {
        let p = Presets { entries: Vec::new() };
        assert(p@ =~= Map::<Seq<char>, (Seq<char>, Seq<char>, Seq<char>)>::empty());
        p
    }

    fn position(&self, name: &str) -> (r: (usize, bool))
        ensures
            r.0 <= self.entries@.len(),
            forall|i: int| 0 <= i < r.0 ==> text_lt(self.entries@[i].0@, name@),
            r.1 ==> r.0 < self.entries@.len() && self.entries@[r.0 as int].0@ == name@,
            !r.1 ==> r.0 < self.entries@.len() ==> text_lt(name@, self.entries@[r.0 as int].0@),
    {
        proof {
            use_type_invariant(self);
        }
        let mut i: usize = 0;
        while i < self.entries.len() && text_less(self.entries[i].0.as_str(), name)
            invariant
                i <= self.entries@.len(),
                forall|j: int| 0 <= j < i ==> text_lt(self.entries@[j].0@, name@),
            decreases self.entries.len() - i,
        {
            i = i + 1;
        }
        if i < self.entries.len() {
            let same = crate::text::same_text(self.entries[i].0.as_str(), name);
            if !same {
                proof {
                    lemma_text_lt_total(self.entries@[i as int].0@, name@);
                }
            }
            (i, same)
        } else {
            (i, false)
        }
    }

    pub fn get(&self, name: &str) -> (r: Option<&BackendPreset>)
        ensures
            r is Some <==> self@.contains_key(name@),
            r matches Some(p) ==> p@ == self@[name@],
    {
        proof {
            use_type_invariant(self);
        }
        let (i, found) = self.position(name);
        if found {
            proof {
                lemma_entries_map_at(self.entries@, i as int);
            }
            Some(&self.entries[i].1)
        } else {
            proof {
                if self@.contains_key(name@) {
                    let ns = entry_names(self.entries@);
                    assert(ns.contains(name@));
                    let j = choose|j: int| 0 <= j < ns.len() && ns[j] == name@;
                    assert(ns[j] == self.entries@[j].0@);
                    lemma_text_lt_irreflexive(name@);
                    if j < i {
                        assert(text_lt(self.entries@[j].0@, name@));
                    } else {
                        assert(text_lt(name@, self.entries@[i as int].0@));
                        if j > i {
                            assert(ns[i as int] == self.entries@[i as int].0@);
                            assert(text_lt(ns[i as int], ns[j]));
                            lemma_text_lt_transitive(name@, ns[i as int], ns[j]);
                        }
                    }
                }
            }
            None
        }
    }

    pub fn contains_key(&self, name: &str) -> (b: bool)
        ensures
            b == self@.contains_key(name@),
    {
        self.get(name).is_some()
    }

    /// Set the preset called `name`, replacing any preset of that name.
    pub fn insert(&mut self, name: String, preset: BackendPreset)
        ensures
            final(self)@ == old(self)@.insert(name@, preset@),
    {
        proof {
            use_type_invariant(&*self);
        }
        let (i, found) = self.position(name.as_str());
        let ghost es = self.entries@;
        let ghost k = name@;
        let ghost v = preset@;
        let mut entries: Vec<(String, BackendPreset)> = Vec::new();
        std::mem::swap(&mut entries, &mut self.entries);
        assert(entries@ == es);
        if found {
            entries.set(i, (name, preset));
            proof {
                let es2 = entries@;
                let ns = entry_names(es);
                assert(entry_names(es2) =~= ns);
                assert(ns[i as int] == k);
                lemma_name_index(ns, i as int);
                assert forall|k2: Seq<char>| entries_map(es2).contains_key(k2) implies entries_map(
                    es2,
                )[k2] == entries_map(es).insert(k, v)[k2] by {
                    let j = name_index(ns, k2);
                    assert(0 <= j < ns.len() && ns[j] == k2);
                    lemma_entries_map_at(es2, j);
                    assert(es2[j].0@ == ns[j]);
                    if j != i {
                        assert(k2 != k);
                        assert(es2[j] == es[j]);
                        lemma_entries_map_at(es, j);
                    }
                }
                assert(entries_map(es2).dom() =~= entries_map(es).insert(k, v).dom());
                assert(entries_map(es2) =~= entries_map(es).insert(k, v));
            }
        } else {
            entries.insert(i, (name, preset));
            proof {
                let es2 = entries@;
                let ns = entry_names(es);
                let ns2 = entry_names(es2);
                assert(ns2 =~= ns.insert(i as int, k));
                assert forall|a: int, b: int| 0 <= a < b < ns2.len() implies text_lt(
                    #[trigger] ns2[a],
                    #[trigger] ns2[b],
                ) by {
                    if b < i {
                    } else if b == i {
                        assert(ns2[a] == ns[a]);
                    } else if a < i {
                        assert(ns2[b] == ns[b - 1]);
                        assert(text_lt(ns[a], k));
                        assert(text_lt(k, ns[i as int]));
                        if b - 1 > i {
                            lemma_text_lt_transitive(k, ns[i as int], ns[b - 1]);
                        }
                        lemma_text_lt_transitive(ns[a], k, ns[b - 1]);
                    } else if a == i {
                        assert(ns2[b] == ns[b - 1]);
                        if b - 1 > i {
                            lemma_text_lt_transitive(k, ns[i as int], ns[b - 1]);
                        }
                    } else {
                        assert(ns2[a] == ns[a - 1] && ns2[b] == ns[b - 1]);
                    }
                }
                assert(ns2[i as int] == k);
                assert forall|k2: Seq<char>| ns2.contains(k2) <==> (k2 == k || ns.contains(k2)) by {
                    if ns2.contains(k2) {
                        let j = choose|j: int| 0 <= j < ns2.len() && ns2[j] == k2;
                        if j < i {
                            assert(ns[j] == k2);
                        } else if j > i {
                            assert(ns[j - 1] == k2);
                        }
                    }
                    if ns.contains(k2) {
                        let j = choose|j: int| 0 <= j < ns.len() && ns[j] == k2;
                        if j < i {
                            assert(ns2[j] == k2);
                        } else {
                            assert(ns2[j + 1] == k2);
                        }
                    }
                }
                assert(entries_map(es2).dom() =~= entries_map(es).insert(k, v).dom());
                lemma_name_index(ns2, i as int);
                assert forall|k2: Seq<char>| entries_map(es2).contains_key(k2) implies entries_map(
                    es2,
                )[k2] == entries_map(es).insert(k, v)[k2] by {
                    let j = name_index(ns2, k2);
                    assert(0 <= j < ns2.len() && ns2[j] == k2);
                    lemma_entries_map_at(es2, j);
                    assert(es2[j].0@ == ns2[j]);
                    if j < i {
                        assert(k2 != k);
                        assert(es2[j] == es[j]);
                        assert(ns[j] == es[j].0@);
                        lemma_entries_map_at(es, j);
                    } else if j > i {
                        assert(k2 != k);
                        assert(es2[j] == es[j - 1]);
                        assert(ns[j - 1] == es[j - 1].0@);
                        lemma_entries_map_at(es, j - 1);
                    }
                }
                assert(entries_map(es2) =~= entries_map(es).insert(k, v));
            }
        }
        self.entries = entries;
    }

    /// The preset names, in order.
    pub fn names(&self) -> (r: Vec<String>)
        ensures
            r.deep_view() == self.names_spec(),
            strictly_sorted(r.deep_view()),
            forall|k: Seq<char>| self@.contains_key(k) <==> r.deep_view().contains(k),
    {
        proof {
            use_type_invariant(self);
        }
        let mut out: Vec<String> = Vec::new();
        let mut j: usize = 0;
        while j < self.entries.len()
            invariant
                j <= self.entries@.len(),
                out.deep_view() == entry_names(self.entries@).take(j as int),
            decreases self.entries.len() - j,
        {
            let c = String::from_str(self.entries[j].0.as_str());
            let ghost before = out.deep_view();
            out.push(c);
            assert(out.deep_view() =~= before.push(entry_names(self.entries@)[j as int]));
            assert(entry_names(self.entries@).take(j as int + 1) =~= entry_names(
                self.entries@,
            ).take(j as int).push(entry_names(self.entries@)[j as int]));
            j = j + 1;
        }
        assert(entry_names(self.entries@).take(self.entries@.len() as int) =~= entry_names(
            self.entries@,
        ));
        out
    }
}

} // verus!

verus! {

pub const AMD_FLM: &'static str = "amd-flm";

pub const INTEL_OVMS: &'static str = "intel-ovms";

/// The preset for AMD Ryzen AI through FastFlowLM.
pub open spec fn amd_preset() -> (Seq<char>, Seq<char>, Seq<char>) {
    ("http://localhost:52625/v1"@, "embeddinggemma-300m"@, "gemma3:4b"@)
}

/// The preset for Intel through OpenVINO Model Server.
pub open spec fn intel_preset() -> (Seq<char>, Seq<char>, Seq<char>) {
    ("http://localhost:8000/v3"@, "embeddinggemma-300m"@, "gemma3:4b-int4-ov"@)
}

/// The presets every configuration starts from.
pub open spec fn builtin_presets() -> Map<Seq<char>, (Seq<char>, Seq<char>, Seq<char>)> {
    Map::empty().insert(AMD_FLM@, amd_preset()).insert(INTEL_OVMS@, intel_preset())
}

pub open spec fn default_excludes() -> Seq<Seq<char>> {
    seq![".git/**"@, "node_modules/**"@, "target/**"@, "**/*.min.js"@]
}

pub struct Config {
    /// Name of the active entry in `backends`.
    pub backend: String,
    pub max_file_size_mb: u64,
    pub chunk_tokens: usize,
    pub chunk_overlap: usize,
    pub exclude: Vec<String>,
    /// Allow falling back to locally installed converters for formats this
    /// build has no extractor for.
    pub external_extractors: bool,
    /// Explicit index location; when unset a per-root path under the user's
    /// data directory is used.
    pub db: Option<String>,
    pub backends: Presets,
}

fn builtin_preset_list() -> (p: Presets)
    ensures
        p@ == builtin_presets(),
{
    let mut backends = Presets::new();
    backends.insert(
        String::from_str(AMD_FLM),
        BackendPreset {
            base_url: String::from_str("http://localhost:52625/v1"),
            embed_model: String::from_str("embeddinggemma-300m"),
            chat_model: String::from_str("gemma3:4b"),
        },
    );
    backends.insert(
        String::from_str(INTEL_OVMS),
        BackendPreset {
            base_url: String::from_str("http://localhost:8000/v3"),
            embed_model: String::from_str("embeddinggemma-300m"),
            chat_model: String::from_str("gemma3:4b-int4-ov"),
        },
    );
    backends
}

impl Default for Config {
    fn default() -> (c: Self)
        ensures
            c.backend@ == AMD_FLM@,
            c.max_file_size_mb == 5,
            c.chunk_tokens == 400,
            c.chunk_overlap == 60,
            c.exclude.deep_view() == default_excludes(),
            c.external_extractors,
            c.db is None,
            c.backends@ == builtin_presets(),
    {
        let mut exclude: Vec<String> = Vec::new();
        exclude.push(String::from_str(".git/**"));
        exclude.push(String::from_str("node_modules/**"));
        exclude.push(String::from_str("target/**"));
        exclude.push(String::from_str("**/*.min.js"));
        assert(exclude.deep_view() =~= default_excludes());
        Config {
            backend: String::from_str(AMD_FLM),
            max_file_size_mb: 5,
            chunk_tokens: 400,
            chunk_overlap: 60,
            exclude,
            external_extractors: true,
            db: None,
            backends: builtin_preset_list(),
        }
    }
}

/// Values supplied on the command line, which win over everything else.
pub struct Overrides {
    pub backend: Option<String>,
    pub base_url: Option<String>,
    pub embed_model: Option<String>,
    pub chat_model: Option<String>,
    pub db: Option<String>,
}

impl Default for Overrides {
    fn default() -> (o: Self)
        ensures
            o.backend is None,
            o.base_url is None,
            o.embed_model is None,
            o.chat_model is None,
            o.db is None,
    {
        Overrides { backend: None, base_url: None, embed_model: None, chat_model: None, db: None }
    }
}

/// The text an optional string holds.
pub open spec fn opt_view(o: Option<String>) -> Option<Seq<char>> {
    match o {
        Some(s) => Some(s@),
        None => None,
    }
}

/// The preset a named backend starts from when an override creates or
/// changes it: its configured one, else the built-in one of that name, else
/// an empty preset.
pub open spec fn template_for(
    presets: Map<Seq<char>, (Seq<char>, Seq<char>, Seq<char>)>,
    name: Seq<char>,
) -> (Seq<char>, Seq<char>, Seq<char>) {
    if presets.contains_key(name) {
        presets[name]
    } else if builtin_presets().contains_key(name) {
        builtin_presets()[name]
    } else {
        (Seq::empty(), Seq::empty(), Seq::empty())
    }
}

pub open spec fn or_keep(o: Option<Seq<char>>, keep: Seq<char>) -> Seq<char> {
    match o {
        Some(v) => v,
        None => keep,
    }
}

/// `new` is `old` with the given overrides applied: the backend and index
/// location are replaced when given, and a preset value that is given is
/// written into the active preset, which is created when it does not exist.
pub open spec fn overrides_applied(
    old: &Config,
    new: &Config,
    backend: Option<Seq<char>>,
    base_url: Option<Seq<char>>,
    embed_model: Option<Seq<char>>,
    chat_model: Option<Seq<char>>,
    db: Option<Seq<char>>,
) -> bool {
    let name = or_keep(backend, old.backend@);
    let t = template_for(old.backends@, name);
    &&& new.backend@ == name
    &&& opt_view(new.db) == (if db is Some {
        db
    } else {
        opt_view(old.db)
    })
    &&& new.max_file_size_mb == old.max_file_size_mb
    &&& new.chunk_tokens == old.chunk_tokens
    &&& new.chunk_overlap == old.chunk_overlap
    &&& new.exclude.deep_view() == old.exclude.deep_view()
    &&& new.external_extractors == old.external_extractors
    &&& new.backends@ == if base_url is None && embed_model is None && chat_model is None {
        old.backends@
    } else {
        old.backends@.insert(
            name,
            (or_keep(base_url, t.0), or_keep(embed_model, t.1), or_keep(chat_model, t.2)),
        )
    }
}

impl Config {
    /// Apply overrides in place. Per-preset values are written into the
    /// active preset, creating it when the name is not yet configured.
    pub fn apply_overrides(&mut self, overrides: &Overrides)
        ensures
            overrides_applied(
                old(self),
                final(self),
                opt_view(overrides.backend),
                opt_view(overrides.base_url),
                opt_view(overrides.embed_model),
                opt_view(overrides.chat_model),
                opt_view(overrides.db),
            ),
    {
        if let Some(name) = &overrides.backend {
            self.backend = String::from_str(name.as_str());
        }
        if let Some(db) = &overrides.db {
            self.db = Some(String::from_str(db.as_str()));
        }
        let touches_preset = overrides.base_url.is_some() || overrides.embed_model.is_some()
            || overrides.chat_model.is_some();
        if !touches_preset {
            return;
        }
        let mut preset = match self.backends.get(self.backend.as_str()) {
            Some(p) => p.clone(),
            None => {
                let fallback = builtin_preset_list();
                match fallback.get(self.backend.as_str()) {
                    Some(p) => p.clone(),
                    None => BackendPreset {
                        base_url: String::new(),
                        embed_model: String::new(),
                        chat_model: String::new(),
                    },
                }
            },
        };
        if let Some(base_url) = &overrides.base_url {
            preset.base_url = String::from_str(base_url.as_str());
        }
        if let Some(embed_model) = &overrides.embed_model {
            preset.embed_model = String::from_str(embed_model.as_str());
        }
        if let Some(chat_model) = &overrides.chat_model {
            preset.chat_model = String::from_str(chat_model.as_str());
        }
        let name = String::from_str(self.backend.as_str());
        self.backends.insert(name, preset);
    }

    /// The environment overlay, with the lookup passed in: each of
    /// `NPURAG_BACKEND`, `NPURAG_BASE_URL`, `NPURAG_EMBED_MODEL`,
    /// `NPURAG_CHAT_MODEL` and `NPURAG_DB` is asked for once, and what comes
    /// back is applied as overrides.
    pub fn apply_env_with<F: Fn(&str) -> Option<String>>(&mut self, get: F)
        requires
            forall|k: &str| get.requires((k,)),
        ensures
            exists|b: Option<String>, u: Option<String>, e: Option<String>, c: Option<String>, d: Option<String>|
                {
                    &&& get.ensures(("NPURAG_BACKEND",), b)
                    &&& get.ensures(("NPURAG_BASE_URL",), u)
                    &&& get.ensures(("NPURAG_EMBED_MODEL",), e)
                    &&& get.ensures(("NPURAG_CHAT_MODEL",), c)
                    &&& get.ensures(("NPURAG_DB",), d)
                    &&& overrides_applied(
                        old(self),
                        final(self),
                        opt_view(b),
                        opt_view(u),
                        opt_view(e),
                        opt_view(c),
                        opt_view(d),
                    )
                },
    {
        let overrides = Overrides {
            backend: get("NPURAG_BACKEND"),
            base_url: get("NPURAG_BASE_URL"),
            embed_model: get("NPURAG_EMBED_MODEL"),
            chat_model: get("NPURAG_CHAT_MODEL"),
            db: get("NPURAG_DB"),
        };
        self.apply_overrides(&overrides);
    }
}

} // verus!

verus! {

/// The active backend after all layers have been applied.
#[derive(Debug, Clone, PartialEq, Eq)]
pub struct ResolvedBackend {
    pub name: String,
    pub base_url: String,
    pub embed_model: String,
    pub chat_model: String,
}

/// Why a configuration cannot be used as it stands.
#[derive(Debug, Clone, PartialEq, Eq)]
pub enum ConfigError {
    /// The active backend names no configured preset.
    UnknownBackend { name: String, known: Vec<String> },
    /// The active preset has a blank base URL.
    MissingBaseUrl { name: String },
    /// No index path was given and there is no per-user data directory.
    NoDataDirectory,
}

pub open spec fn config_error_text(e: ConfigError) -> Seq<char> {
    match e {
        ConfigError::UnknownBackend { name, known } => "unknown backend `"@ + name@
            + "` (configured presets: "@ + joined(known.deep_view(), ", "@) + ")"@,
        ConfigError::MissingBaseUrl { name } => "backend `"@ + name@
            + "` has no base_url; set it in the config file or pass --base-url"@,
        ConfigError::NoDataDirectory => "could not determine a data directory; pass --db"@,
    }
}

impl ConfigError {
    /// What went wrong, in words.
    pub fn message(&self) -> (m: String)
        ensures
            m@ == config_error_text(*self),
    {
        match self {
            ConfigError::UnknownBackend { name, known } => {
                let mut m = String::from_str("unknown backend `");
                m.append(name.as_str());
                m.append("` (configured presets: ");
                let listed = join(known, ", ");
                m.append(listed.as_str());
                m.append(")");
                m
            },
            ConfigError::MissingBaseUrl { name } => {
                let mut m = String::from_str("backend `");
                m.append(name.as_str());
                m.append("` has no base_url; set it in the config file or pass --base-url");
                m
            },
            ConfigError::NoDataDirectory => String::from_str(
                "could not determine a data directory; pass --db",
            ),
        }
    }
}

/// `Path::push` on Unix: an absolute `name` replaces `dir`; otherwise a
/// separator is put between them unless `dir` is empty or already ends in one.
pub open spec fn path_joined(dir: Seq<char>, name: Seq<char>) -> Seq<char> {
    if name.len() > 0 && name[0] == '/' {
        name
    } else if dir.len() == 0 || dir.last() == '/' {
        dir + name
    } else {
        dir + seq!['/'] + name
    }
}

/// `PathBuf::join` on Unix paths held as text.
pub fn join_path(dir: &str, name: &str) -> (p: String)
    ensures
        p@ == path_joined(dir@, name@),
{
    let n = chars_of(name);
    if n.len() > 0 && n[0] == '/' {
        return String::from_str(name);
    }
    let d = chars_of(dir);
    let mut p = String::from_str(dir);
    if d.len() > 0 && d[d.len() - 1] != '/' {
        p.append("/");
        proof {
            reveal_strlit("/");
        }
    }
    p.append(name);
    p
}

/// The key an index directory is named by: the 64-bit FNV-1a hash of the
/// root path as sixteen lowercase hexadecimal digits.
pub open spec fn spec_root_key(root: Seq<char>) -> Seq<char> {
    hex_digits(fnv1a(vstd::utf8::encode_utf8(root)) as nat, 16)
}

/// A short, stable, filesystem-safe key for a root path.
pub fn root_key(root: &str) -> (k: String)
    ensures
        k@ == spec_root_key(root@),
{
    hex16(fnv1a64(root))
}

/// The index of a root lives inside the data directory it is placed under,
/// in a folder named by the root's key, as `index.db`: the path starts with
/// the directory and ends with `/`, the key, `/index.db`.
pub proof fn law_index_lives_under_the_data_directory(dir: Seq<char>, root: Seq<char>)
    ensures
        index_path(dir, root).take(dir.len() as int) == dir,
        ends_with(index_path(dir, root), seq!['/'] + spec_root_key(root) + "/index.db"@)
            || (dir.len() == 0 && index_path(dir, root) == spec_root_key(root) + "/index.db"@),
{
    reveal_strlit("index.db");
    reveal_strlit("/index.db");
    law_root_key_is_filesystem_safe(root);
    let k = spec_root_key(root);
    assert(k[0] != '/');
    let kd = path_joined(dir, k);
    let p = index_path(dir, root);
    assert(kd.last() == k.last());
    assert(kd.last() != '/');
    assert(p == kd + "/index.db"@);
    if dir.len() == 0 {
        assert(kd == k);
    } else if dir.last() == '/' {
        assert(kd == dir + k);
        assert(p.take(dir.len() as int) =~= dir);
        assert(p.skip(p.len() - (k.len() + 10)) =~= seq!['/'] + k + "/index.db"@);
    } else {
        assert(kd == dir + seq!['/'] + k);
        assert(p.take(dir.len() as int) =~= dir);
        assert(p.skip(p.len() - (k.len() + 10)) =~= seq!['/'] + k + "/index.db"@);
    }
}

/// A key is sixteen characters, each a lowercase hexadecimal digit.
pub proof fn law_root_key_is_filesystem_safe(root: Seq<char>)
    ensures
        spec_root_key(root).len() == 16,
        forall|i: int|
            0 <= i < 16 ==> ('0' <= #[trigger] spec_root_key(root)[i] <= '9') || ('a'
                <= spec_root_key(root)[i] <= 'f'),
{
    lemma_hex_digits(fnv1a(vstd::utf8::encode_utf8(root)) as nat, 16);
}

proof fn lemma_hex_digits(h: nat, n: nat)
    ensures
        hex_digits(h, n).len() == n,
        forall|i: int|
            0 <= i < n ==> ('0' <= #[trigger] hex_digits(h, n)[i] <= '9') || ('a' <= hex_digits(
                h,
                n,
            )[i] <= 'f'),
    decreases n,
{
    if n > 0 {
        lemma_hex_digits(h / 16, (n - 1) as nat);
        let d = (h % 16) as int;
        assert(0 <= d < 16);
        assert(crate::text::hex_char(d) == (if d < 10 {
            (d + 0x30) as char
        } else {
            (d - 10 + 0x61) as char
        }));
        assert forall|i: int| 0 <= i < n implies ('0' <= #[trigger] hex_digits(h, n)[i] <= '9') || (
        'a' <= hex_digits(h, n)[i] <= 'f') by {
            if i < n - 1 {
                assert(hex_digits(h, n)[i] == hex_digits(h / 16, (n - 1) as nat)[i]);
            }
        }
    }
}

/// Where the index for `root` lives under the data directory `dir`.
pub open spec fn index_path(dir: Seq<char>, root: Seq<char>) -> Seq<char> {
    path_joined(path_joined(dir, spec_root_key(root)), "index.db"@)
}

/// Whether `s` ends with `suffix`.
pub open spec fn ends_with(s: Seq<char>, suffix: Seq<char>) -> bool {
    s.len() >= suffix.len() && s.skip(s.len() - suffix.len()) == suffix
}

/// The shape every per-user data directory of this application has: the
/// project directory `npurag` joined onto the platform's data location
/// (Linux, BSD, macOS), or that project directory's `data` folder (Windows).
pub open spec fn is_project_data_dir(d: Seq<char>) -> bool {
    ends_with(d, "npurag"@) || ends_with(d, "data"@)
}

/// `directories::ProjectDirs::from("", "", "npurag")` and its `data_dir`, as
/// text: the per-user data directory, if the platform has one. Which
/// directory that is depends on the environment; what holds of every
/// outcome is that the path ends with the project directory `npurag`
/// (`$XDG_DATA_HOME/npurag`, `~/.local/share/npurag`,
/// `~/Library/Application Support/npurag`) or, on Windows, with its `data`
/// folder (`{RoamingAppData}\npurag\data`).
#[verifier::external_body]
fn data_dir() -> (d: Option<String>)
    ensures
        d matches Some(p) ==> is_project_data_dir(p@),
{
    directories::ProjectDirs::from("", "", "npurag").map(
        |dirs| dirs.data_dir().to_string_lossy().into_owned(),
    )
}

impl Config {
    /// The active preset, if it is configured.
    pub open spec fn active_preset(&self) -> Option<(Seq<char>, Seq<char>, Seq<char>)> {
        if self.backends@.contains_key(self.backend@) {
            Some(self.backends@[self.backend@])
        } else {
            None
        }
    }

    /// The active backend, with the trailing `/` of its base URL removed.
    /// An unknown backend is refused with the list of configured presets,
    /// and so is a preset whose base URL is blank.
    pub fn resolve_backend(&self) -> (r: Result<ResolvedBackend, ConfigError>)
        ensures
            r is Ok <==> (self.active_preset() matches Some(p) && trim_ws(p.0).len() > 0),
            match r {
                Ok(rb) => {
                    &&& rb.name@ == self.backend@
                    &&& rb.base_url@ == trim_end_char(self.backends@[self.backend@].0, '/')
                    &&& rb.embed_model@ == self.backends@[self.backend@].1
                    &&& rb.chat_model@ == self.backends@[self.backend@].2
                },
                Err(ConfigError::UnknownBackend { name, known }) => {
                    &&& self.active_preset() is None
                    &&& name@ == self.backend@
                    &&& known.deep_view() == self.backends.names_spec()
                    &&& strictly_sorted(known.deep_view())
                    &&& forall|k: Seq<char>|
                        self.backends@.contains_key(k) <==> known.deep_view().contains(k)
                },
                Err(ConfigError::MissingBaseUrl { name }) => {
                    &&& self.active_preset() is Some
                    &&& name@ == self.backend@
                },
                Err(ConfigError::NoDataDirectory) => false,
            },
    {
        match self.backends.get(self.backend.as_str()) {
            None => Err(
                ConfigError::UnknownBackend {
                    name: String::from_str(self.backend.as_str()),
                    known: self.backends.names(),
                },
            ),
            Some(preset) => {
                let trimmed = trim(preset.base_url.as_str());
                if trimmed.as_str().is_empty() {
                    return Err(
                        ConfigError::MissingBaseUrl {
                            name: String::from_str(self.backend.as_str()),
                        },
                    );
                }
                Ok(
                    ResolvedBackend {
                        name: String::from_str(self.backend.as_str()),
                        base_url: trim_end_matches(preset.base_url.as_str(), '/'),
                        embed_model: String::from_str(preset.embed_model.as_str()),
                        chat_model: String::from_str(preset.chat_model.as_str()),
                    },
                )
            },
        }
    }

    pub fn extract_options(&self) -> (o: ExtractOptions)
        ensures
            o.external_tools == self.external_extractors,
    {
        ExtractOptions { external_tools: self.external_extractors }
    }

    pub fn chunk_options(&self) -> (o: ChunkOptions)
        ensures
            o.target_tokens == self.chunk_tokens,
            o.overlap_tokens == self.chunk_overlap,
            o.max_tokens == 2048,
    {
        let d = ChunkOptions::default();
        ChunkOptions {
            target_tokens: self.chunk_tokens,
            overlap_tokens: self.chunk_overlap,
            max_tokens: d.max_tokens,
        }
    }

    /// The traversal filters: command-line globs extend, and never replace,
    /// the excludes configured in the file.
    pub fn walk_options(
        &self,
        include_globs: &Vec<String>,
        exclude: &Vec<String>,
        max_size_mb: Option<u64>,
        follow_symlinks: bool,
    ) -> (o: WalkOptions)
        requires
            (match max_size_mb {
                Some(m) => m,
                None => self.max_file_size_mb,
            }) * 1024 * 1024 <= u64::MAX,
        ensures
            o.max_file_size == (match max_size_mb {
                Some(m) => m,
                None => self.max_file_size_mb,
            }) * 1024 * 1024,
            o.follow_symlinks == follow_symlinks,
            o.include_globs.deep_view() == include_globs.deep_view(),
            o.exclude.deep_view() == self.exclude.deep_view() + exclude.deep_view(),
            o.respect_gitignore,
    {
        let mut excludes = clone_strings(&self.exclude);
        let mut j: usize = 0;
        while j < exclude.len()
            invariant
                j <= exclude.len(),
                excludes.deep_view() == self.exclude.deep_view() + exclude.deep_view().take(
                    j as int,
                ),
            decreases exclude.len() - j,
        {
            let c = String::from_str(exclude[j].as_str());
            let ghost before = excludes.deep_view();
            excludes.push(c);
            assert(exclude.deep_view()[j as int] == exclude[j as int]@);
            assert(excludes.deep_view() =~= before.push(exclude.deep_view()[j as int]));
            j = j + 1;
            assert(excludes.deep_view() =~= self.exclude.deep_view() + exclude.deep_view().take(
                j as int,
            ));
        }
        assert(exclude.deep_view().take(exclude.len() as int) =~= exclude.deep_view());
        let mb = match max_size_mb {
            Some(m) => m,
            None => self.max_file_size_mb,
        };
        WalkOptions {
            max_file_size: mb * 1024 * 1024,
            follow_symlinks,
            include_globs: clone_strings(include_globs),
            exclude: excludes,
            respect_gitignore: true,
        }
    }

    /// Where the index for `root` lives when the per-user data directory is
    /// `data_dir`: the explicit path when one is configured, else a file
    /// named by the root's key under the data directory.
    pub fn db_path_in(&self, data_dir: Option<String>, root: &str) -> (r: Result<
        String,
        ConfigError,
    >)
        ensures
            match self.db {
                Some(d) => r matches Ok(p) && p@ == d@,
                None => match data_dir {
                    Some(dir) => r matches Ok(p) && p@ == index_path(dir@, root@),
                    None => r matches Err(ConfigError::NoDataDirectory),
                },
            },
    {
        if let Some(db) = &self.db {
            return Ok(String::from_str(db.as_str()));
        }
        match data_dir {
            None => Err(ConfigError::NoDataDirectory),
            Some(dir) => {
                let key = root_key(root);
                let keyed = join_path(dir.as_str(), key.as_str());
                Ok(join_path(keyed.as_str(), "index.db"))
            },
        }
    }

    /// Where the index for `root` lives: one index per root, keyed by a
    /// digest of the root path, under the per-user data directory.
    pub fn db_path_for(&self, root: &str) -> (r: Result<String, ConfigError>)
        ensures
            match self.db {
                Some(d) => r matches Ok(p) && p@ == d@,
                None => r matches Err(ConfigError::NoDataDirectory) || (r matches Ok(p) && exists|
                    dir: Seq<char>,
                | is_project_data_dir(dir) && p@ == index_path(dir, root@)),
            },
    {
        let dir = data_dir();
        self.db_path_in(dir, root)
    }
}

/// Overrides that name a base URL leave the active backend configured with
/// exactly that URL, whatever was configured before.
pub proof fn law_command_line_base_url_wins(
    old: &Config,
    new: &Config,
    backend: Option<Seq<char>>,
    base_url: Seq<char>,
    embed_model: Option<Seq<char>>,
    chat_model: Option<Seq<char>>,
    db: Option<Seq<char>>,
)
    requires
        overrides_applied(old, new, backend, Some(base_url), embed_model, chat_model, db),
    ensures
        new.active_preset() matches Some(p) && p.0 == base_url,
{
}

/// Overrides that name nothing leave the configuration as it was.
pub proof fn law_empty_overrides_change_nothing(old: &Config, new: &Config)
    requires
        overrides_applied(old, new, None, None, None, None, None),
    ensures
        new.backend@ == old.backend@,
        opt_view(new.db) == opt_view(old.db),
        new.backends@ == old.backends@,
        new.exclude.deep_view() == old.exclude.deep_view(),
        new.max_file_size_mb == old.max_file_size_mb,
        new.chunk_tokens == old.chunk_tokens,
        new.chunk_overlap == old.chunk_overlap,
        new.external_extractors == old.external_extractors,
{
}

} // verus!

verus! {

/// Layers applied in turn (the environment over the file, then the command
/// line over both): the later layer wins for the backend, the index path and
/// a base URL, and a base URL the command line leaves alone survives from the
/// environment.
pub proof fn law_later_layers_win(
    file: &Config,
    env: &Config,
    cli: &Config,
    env_backend: Option<Seq<char>>,
    env_base_url: Option<Seq<char>>,
    env_embed_model: Option<Seq<char>>,
    env_chat_model: Option<Seq<char>>,
    env_db: Option<Seq<char>>,
    cli_backend: Option<Seq<char>>,
    cli_base_url: Option<Seq<char>>,
    cli_embed_model: Option<Seq<char>>,
    cli_chat_model: Option<Seq<char>>,
    cli_db: Option<Seq<char>>,
)
    requires
        overrides_applied(
            file,
            env,
            env_backend,
            env_base_url,
            env_embed_model,
            env_chat_model,
            env_db,
        ),
        overrides_applied(
            env,
            cli,
            cli_backend,
            cli_base_url,
            cli_embed_model,
            cli_chat_model,
            cli_db,
        ),
    ensures
        cli.backend@ == or_keep(cli_backend, or_keep(env_backend, file.backend@)),
        opt_view(cli.db) == (if cli_db is Some {
            cli_db
        } else if env_db is Some {
            env_db
        } else {
            opt_view(file.db)
        }),
        cli_base_url matches Some(u) ==> (cli.active_preset() matches Some(p) && p.0 == u),
        (cli_base_url is None && cli_backend is None && env_base_url is Some) ==> (
        cli.active_preset() matches Some(p) && p.0 == env_base_url->0),
{
}

} // verus!
