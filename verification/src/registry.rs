//! Named lookup of renderer backends.
//!
//! Names are lowercase (`"scanline"`, `"raycast"`). Entries keep their
//! registration order, so that enumeration is stable, and lookup takes the
//! first match.

use crate::error::Error;
use crate::options::RenderBackend;
use crate::renderer::{built_in, make_renderer, AnyRenderer};
use crate::text::{escape, escaped};
use vstd::prelude::*;
use vstd::string::StringExecFns;

verus! {

/// Constructs renderers of a backend from elsewhere.
///
/// Construction can fail, so that a backend can check its environment before
/// the first render.
pub trait MakeRenderer<K>: Send + Sync {
    /// Whether construction can come out as `r`. A factory that says nothing
    /// leaves it open.
    open spec fn yields(&self, r: Result<AnyRenderer<K>, Error>) -> bool {
        true
    }

    /// Constructs a fresh renderer.
    fn make(&self) -> (r: Result<AnyRenderer<K>, Error>)
        ensures
            self.yields(r),
    ;
}

/// What a registry entry constructs.
#[verifier::reject_recursive_types(K)]
pub enum RendererFactory<K> {
    /// A built-in backend, with its arithmetic and ray tests.
    BuiltIn(RenderBackend, K),
    /// A backend from elsewhere.
    Custom(Box<dyn MakeRenderer<K>>),
}

/// A name and what it constructs.
#[verifier::reject_recursive_types(K)]
pub struct Entry<K> {
    /// The name.
    pub name: String,
    /// What it constructs.
    pub factory: RendererFactory<K>,
}

/// Lookup table from backend name to factory.
#[verifier::reject_recursive_types(K)]
pub struct RenderRegistry<K> {
    entries: Vec<Entry<K>>,
}

impl<K> View for RenderRegistry<K> {
    type V = Seq<(Seq<char>, RendererFactory<K>)>;

    closed spec fn view(&self) -> Seq<(Seq<char>, RendererFactory<K>)> {
        self.entries@.map_values(|e: Entry<K>| (e.name@, e.factory))
    }
}

/// Place of the first entry with a name, counting from `from`; the number of
/// entries if there is none.
pub open spec fn first_named<K>(
    entries: Seq<(Seq<char>, RendererFactory<K>)>,
    name: Seq<char>,
    from: int,
) -> int
    decreases entries.len() - from,
{
    if from >= entries.len() || entries[from].0 == name {
        from
    } else {
        first_named(entries, name, from + 1)
    }
}

impl<K: Copy> RenderRegistry<K> {
    /// Constructs an empty registry.
    pub fn new() -> (r: Self)
        ensures
            r@ == Seq::<(Seq<char>, RendererFactory<K>)>::empty(),
    {
        let r = RenderRegistry { entries: Vec::new() };
        assert(r@ =~= seq![]);
        r
    }

    /// Registers `factory` under `name`.
    ///
    /// Registering a name twice keeps both entries. Lookup takes the first,
    /// so an override of a built-in is registered before the built-ins are.
    pub fn register(&mut self, name: &str, factory: RendererFactory<K>)
        ensures
            final(self)@ == old(self)@.push((name@, factory)),
    {
        let ghost before = self@;
        self.entries.push(Entry { name: name.to_owned(), factory });
        assert(self@ =~= before.push((name@, factory)));
    }

    /// Looks up `name` and constructs a renderer.
    ///
    /// Fails with [`Error::BackendNotFound`] if nothing is registered under
    /// that name. A built-in always constructs; what the factory of a backend
    /// from elsewhere gives is handed on as it is.
    pub fn make(&self, name: &str) -> (r: Result<AnyRenderer<K>, Error>)
        ensures
            ({
                let i = first_named(self@, name@, 0);
                if i < self@.len() {
                    match self@[i].1 {
                        RendererFactory::BuiltIn(backend, tests) => r == Ok::<
                            AnyRenderer<K>,
                            Error,
                        >(built_in(backend, tests)),
                        RendererFactory::Custom(factory) => factory.yields(r),
                    }
                } else {
                    r matches Err(Error::BackendNotFound(missed)) && missed@ == name@
                }
            }),
    {
        let wanted: String = name.to_owned();
        let mut i: usize = 0;
        while i < self.entries.len()
            invariant
                i <= self.entries@.len(),
                self@.len() == self.entries@.len(),
                wanted@ == name@,
                first_named(self@, name@, i as int) == first_named(self@, name@, 0),
            decreases self.entries@.len() - i,
        {
            if self.entries[i].name == wanted {
                return match &self.entries[i].factory {
                    RendererFactory::BuiltIn(backend, tests) => make_renderer(*backend, *tests),
                    RendererFactory::Custom(factory) => factory.make(),
                };
            }
            i += 1;
        }
        Err(Error::BackendNotFound(wanted))
    }

    /// All registered names, in registration order.
    pub fn names(&self) -> (r: Vec<&str>)
        ensures
            r@.len() == self@.len(),
            forall|i: int| 0 <= i < r@.len() ==> (#[trigger] r@[i])@ == self@[i].0,
    {
        let mut out: Vec<&str> = Vec::new();
        let mut i: usize = 0;
        while i < self.entries.len()
            invariant
                i <= self.entries@.len(),
                out@.len() == i,
                self@.len() == self.entries@.len(),
                forall|j: int| 0 <= j < i ==> (#[trigger] out@[j])@ == self@[j].0,
            decreases self.entries@.len() - i,
        {
            out.push(self.entries[i].name.as_str());
            i += 1;
        }
        out
    }
}

/// The first `n` texts in quotes, separated by commas.
pub open spec fn listing(texts: Seq<Seq<char>>, n: int) -> Seq<char>
    decreases n,
{
    if n <= 0 {
        seq![]
    } else {
        let separator = if n > 1 {
            ", "@
        } else {
            seq![]
        };
        listing(texts, n - 1) + separator + "\""@ + texts[n - 1] + "\""@
    }
}

/// The diagnostic text of a registry whose names are written as `texts`.
pub open spec fn listed(texts: Seq<Seq<char>>) -> Seq<char> {
    "RenderRegistry { names: ["@ + listing(texts, texts.len() as int) + "] }"@
}

/// The diagnostic text of a registry whose names are written as `texts`.
pub fn list_texts(texts: &Vec<String>) -> (text: String)
    ensures
        text@ == listed(texts@.map_values(|t: String| t@)),
{
    let mut text: String = "RenderRegistry { names: [".to_owned();
    let ghost opening = text@;
    let ghost all = texts@.map_values(|t: String| t@);
    let mut i: usize = 0;
    assert(opening + listing(all, 0) =~= opening);
    while i < texts.len()
        invariant
            i <= texts@.len(),
            all == texts@.map_values(|t: String| t@),
            text@ == opening + listing(all, i as int),
        decreases texts@.len() - i,
    {
        if i > 0 {
            text.append(", ");
        }
        text.append("\"");
        text.append(texts[i].as_str());
        text.append("\"");
        assert(text@ =~= opening + listing(all, i + 1));
        i += 1;
    }
    text.append("] }");
    text
}

impl<K: Copy> RenderRegistry<K> {
    /// The registered names.
    pub open spec fn known(&self) -> Seq<Seq<char>> {
        self@.map_values(|e: (Seq<char>, RendererFactory<K>)| e.0)
    }

    /// A text for diagnostics that lists the registered names, each in quotes
    /// and escaped where it has to be.
    pub fn describe(&self) -> (text: String)
        ensures
            text@ == listed(self.known().map_values(|name: Seq<char>| escaped(name))),
    {
        let names = self.names();
        let mut texts: Vec<String> = Vec::new();
        let mut i: usize = 0;
        while i < names.len()
            invariant
                i <= names@.len(),
                names@.len() == self@.len(),
                forall|j: int| 0 <= j < names@.len() ==> (#[trigger] names@[j])@ == self@[j].0,
                texts@.len() == i,
                forall|j: int| 0 <= j < i ==> (#[trigger] texts@[j])@ == escaped(self@[j].0),
            decreases names@.len() - i,
        {
            texts.push(escape(names[i]));
            i += 1;
        }
        proof {
            assert(texts@.map_values(|t: String| t@) =~= self.known().map_values(
                |name: Seq<char>| escaped(name),
            ));
        }
        list_texts(&texts)
    }
}

impl<K: Copy> Default for RenderRegistry<K> {
    fn default() -> (r: Self)
        ensures
            r@ == Seq::<(Seq<char>, RendererFactory<K>)>::empty(),
    {
        RenderRegistry::new()
    }
}

/// Registers every built-in backend: the scanline rasteriser, then the ray
/// tracer.
pub fn register_into<K: Copy>(reg: &mut RenderRegistry<K>, tests: K)
    ensures
        final(reg)@ == old(reg)@.push(
            ("scanline"@, RendererFactory::BuiltIn(RenderBackend::Scanline, tests)),
        ).push(("raycast"@, RendererFactory::BuiltIn(RenderBackend::Raycast, tests))),
{
    reg.register("scanline", RendererFactory::BuiltIn(RenderBackend::Scanline, tests));
    reg.register("raycast", RendererFactory::BuiltIn(RenderBackend::Raycast, tests));
}

/// Where the first entry with a name is: no entry before it has that name,
/// and it has, unless there is none.
pub proof fn law_lookup_takes_the_first<K>(
    entries: Seq<(Seq<char>, RendererFactory<K>)>,
    name: Seq<char>,
    from: int,
)
    requires
        0 <= from <= entries.len(),
    ensures
        ({
            let i = first_named(entries, name, from);
            &&& from <= i <= entries.len()
            &&& i < entries.len() ==> entries[i].0 == name
            &&& forall|j: int| from <= j < i ==> (#[trigger] entries[j]).0 != name
        }),
    decreases entries.len() - from,
{
    if from < entries.len() && entries[from].0 != name {
        law_lookup_takes_the_first(entries, name, from + 1);
    }
}

/// A name that is registered keeps what it constructs, whatever is registered
/// later; a name that is not gets what is registered next.
pub proof fn law_earlier_registration_wins<K>(
    entries: Seq<(Seq<char>, RendererFactory<K>)>,
    name: Seq<char>,
    later: (Seq<char>, RendererFactory<K>),
    from: int,
)
    requires
        0 <= from <= entries.len(),
    ensures
        ({
            let i = first_named(entries, name, from);
            let j = first_named(entries.push(later), name, from);
            &&& i < entries.len() ==> j == i && entries.push(later)[j] == entries[i]
            &&& i == entries.len() && later.0 == name ==> entries.push(later)[j] == later
            &&& i == entries.len() && later.0 != name ==> j == entries.len() + 1
        }),
    decreases entries.len() - from,
{
    let longer = entries.push(later);
    if from < entries.len() {
        if entries[from].0 != name {
            law_earlier_registration_wins(entries, name, later, from + 1);
        }
    } else {
        assert(first_named(longer, name, from + 1) == from + 1);
    }
}

/// A fresh registry with the built-ins knows `"scanline"` and `"raycast"`.
pub proof fn law_built_ins_are_found<K>(tests: K)
    ensures
        ({
            let entries = Seq::<(Seq<char>, RendererFactory<K>)>::empty().push(
                ("scanline"@, RendererFactory::BuiltIn(RenderBackend::Scanline, tests)),
            ).push(("raycast"@, RendererFactory::BuiltIn(RenderBackend::Raycast, tests)));
            &&& first_named(entries, "scanline"@, 0) == 0
            &&& first_named(entries, "raycast"@, 0) == 1
        }),
{
    reveal_strlit("scanline");
    reveal_strlit("raycast");
    assert("scanline"@.len() != "raycast"@.len());
    reveal_with_fuel(first_named, 3);
}

} // verus!
