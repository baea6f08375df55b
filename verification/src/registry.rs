//! The registry of declared targets: what was registered under which name,
//! in which order, and which target is resolved by default.

use crate::artifact::ResolvedTarget;
use crate::text::same_text;
use starlark::values::error::ValueError;
use starlark::values::Value;
use vstd::prelude::*;

verus! {

/// Represents a registered target in the Starlark environment.
#[derive(Debug, Clone)]
pub struct Target {
    /// The Starlark callable registered to this target.
    pub callable: Value,
    /// Other targets this one depends on.
    pub depends: Vec<String>,
    /// What calling callable returned, if it has been called.
    pub resolved_value: Option<Value>,
    /// The `ResolvedTarget` instance this target's build() returned.
    pub built_target: Option<ResolvedTarget>,
}

/// A target as contracts see it: names are sequences of characters.
pub ghost struct TargetView {
    pub callable: Value,
    pub depends: Seq<Seq<char>>,
    pub resolved_value: Option<Value>,
    pub built_target: Option<ResolvedTarget>,
}

/// One call of a target's callable: the target, the arguments handed over
/// and what the callable gave back.
pub ghost struct Invocation {
    pub target: Seq<char>,
    pub args: Seq<Value>,
    pub outcome: Result<Value, ValueError>,
}

/// The registry as contracts see it.
pub ghost struct ContextView {
    /// The registered targets by name.
    pub targets: Map<Seq<char>, TargetView>,
    /// The names in the order of their first registration.
    pub targets_order: Seq<Seq<char>>,
    pub default_target: Option<Seq<char>>,
    pub resolve_targets: Option<Seq<Seq<char>>>,
    pub default_build_script_target: Option<Seq<char>>,
    pub build_script_mode: bool,
    /// Every call of a callable made through this registry, oldest first.
    pub invocations: Seq<Invocation>,
}

/// The characters of each string of a list.
pub open spec fn names_of(names: Seq<String>) -> Seq<Seq<char>> {
    Seq::new(names.len(), |i: int| names[i]@)
}

/// The characters of an optional string.
pub open spec fn name_of(name: Option<String>) -> Option<Seq<char>> {
    match name {
        Some(s) => Some(s@),
        None => None,
    }
}

/// The position of `name` in `names`, where it occurs.
pub open spec fn slot(names: Seq<Seq<char>>, name: Seq<char>) -> int {
    choose|i: int| 0 <= i < names.len() && names[i] == name
}

/// Without duplicates, a name's position is the only index that holds it.
pub proof fn lemma_slot(names: Seq<Seq<char>>, i: int)
    requires
        names.no_duplicates(),
        0 <= i < names.len(),
    ensures
        slot(names, names[i]) == i,
        names.contains(names[i]),
{
    let j = slot(names, names[i]);
    assert(0 <= j < names.len() && names[j] == names[i]);
}

impl View for Target {
    type V = TargetView;

    open spec fn view(&self) -> TargetView {
        TargetView {
            callable: self.callable,
            depends: names_of(self.depends@),
            resolved_value: self.resolved_value,
            built_target: self.built_target,
        }
    }
}

impl ContextView {
    /// A registry in which nothing was registered or called yet.
    pub open spec fn empty() -> ContextView {
        ContextView {
            targets: Map::empty(),
            targets_order: Seq::empty(),
            default_target: None,
            resolve_targets: None,
            default_build_script_target: None,
            build_script_mode: false,
            invocations: Seq::empty(),
        }
    }

    /// The order lists exactly the registered names, each once.
    pub open spec fn well_formed(self) -> bool {
        &&& self.targets_order.no_duplicates()
        &&& forall|name: Seq<char>|
            self.targets.dom().contains(name) <==> self.targets_order.contains(name)
    }

    /// Whether a target is registered under `name`.
    pub open spec fn is_registered(self, name: Seq<char>) -> bool {
        self.targets.dom().contains(name)
    }

    /// The cached result of `name`, if it is registered and was resolved.
    pub open spec fn cached(self, name: Seq<char>) -> Option<Value> {
        if self.is_registered(name) {
            self.targets[name].resolved_value
        } else {
            None
        }
    }

    /// The default after a registration of `name`: a claim wins, and so does
    /// any registration while there is no default.
    pub open spec fn next_default(current: Option<Seq<char>>, name: Seq<char>, claim: bool)
        -> Option<Seq<char>> {
        if claim || current is None {
            Some(name)
        } else {
            current
        }
    }

    /// The registry after `name` was registered: a fresh, unresolved target
    /// under that name, listed in the order if the name is new.
    pub open spec fn register(
        self,
        name: Seq<char>,
        callable: Value,
        depends: Seq<Seq<char>>,
        default: bool,
        default_build_script: bool,
    ) -> ContextView {
        ContextView {
            targets: self.targets.insert(
                name,
                TargetView { callable, depends, resolved_value: None, built_target: None },
            ),
            targets_order: if self.targets.dom().contains(name) {
                self.targets_order
            } else {
                self.targets_order.push(name)
            },
            default_target: Self::next_default(self.default_target, name, default),
            default_build_script_target: Self::next_default(
                self.default_build_script_target,
                name,
                default_build_script,
            ),
            ..self
        }
    }

    /// The registry with `value` as the cached result of `name`, where that
    /// name is registered.
    pub open spec fn with_resolved_value(self, name: Seq<char>, value: Value) -> ContextView {
        if self.is_registered(name) {
            ContextView {
                targets: self.targets.insert(
                    name,
                    TargetView { resolved_value: Some(value), ..self.targets[name] },
                ),
                ..self
            }
        } else {
            self
        }
    }

    /// The targets that resolving everything starts from: the explicit list
    /// if there is one, else the build script default in build script mode,
    /// else the default, else nothing.
    pub open spec fn targets_to_resolve(self) -> Seq<Seq<char>> {
        if let Some(names) = self.resolve_targets {
            names
        } else if self.build_script_mode && self.default_build_script_target is Some {
            seq![self.default_build_script_target->Some_0]
        } else if let Some(name) = self.default_target {
            seq![name]
        } else {
            Seq::empty()
        }
    }
}

/// Holds execution context for a Starlark environment.
pub struct EnvironmentContext {
    /// Registered targets, each at the position of its name in `targets_order`.
    targets: Vec<Target>,
    /// Order targets are registered in.
    targets_order: Vec<String>,
    /// Name of the default target.
    default_target: Option<String>,
    /// List of targets to resolve.
    resolve_targets: Option<Vec<String>>,
    /// Name of default target to resolve in build script mode.
    pub default_build_script_target: Option<String>,
    /// Whether we are operating in Rust build script mode.
    ///
    /// This will change the default target to resolve.
    pub build_script_mode: bool,
    /// The calls of callables made so far.
    invoked: Ghost<Seq<Invocation>>,
}

impl View for EnvironmentContext {
    type V = ContextView;

    closed spec fn view(&self) -> ContextView {
        let names = names_of(self.targets_order@);
        ContextView {
            targets: Map::new(
                |name: Seq<char>| names.contains(name),
                |name: Seq<char>| self.targets@[slot(names, name)]@,
            ),
            targets_order: names,
            default_target: name_of(self.default_target),
            resolve_targets: match self.resolve_targets {
                Some(list) => Some(names_of(list@)),
                None => None,
            },
            default_build_script_target: name_of(self.default_build_script_target),
            build_script_mode: self.build_script_mode,
            invocations: self.invoked@,
        }
    }
}

/// A copy of a list of names.
pub fn clone_names(names: &Vec<String>) -> (copy: Vec<String>)
    ensures
        names_of(copy@) == names_of(names@),
{
    let mut copy: Vec<String> = Vec::new();
    let mut i: usize = 0;
    while i < names.len()
        invariant
            i <= names.len(),
            copy.len() == i,
            forall|j: int| 0 <= j < i ==> copy@[j]@ == names@[j]@,
        decreases names.len() - i,
    {
        copy.push(names[i].clone());
        i += 1;
    }
    assert(names_of(copy@) =~= names_of(names@));
    copy
}

impl EnvironmentContext {
    /// Every target has its name, and no name is listed twice.
    pub closed spec fn wf(&self) -> bool {
        &&& self.targets.len() == self.targets_order.len()
        &&& names_of(self.targets_order@).no_duplicates()
    }

    /// A well-formed registry has a well-formed view.
    pub proof fn lemma_view_well_formed(&self)
        requires
            self.wf(),
        ensures
            self@.well_formed(),
    {
    }

    /// A registry without targets, in which build script mode is off.
    pub fn new() -> (context: Self)
        ensures
            context.wf(),
            context@ == ContextView::empty(),
    {
        let context = Self {
            targets: Vec::new(),
            targets_order: Vec::new(),
            default_target: None,
            resolve_targets: None,
            default_build_script_target: None,
            build_script_mode: false,
            invoked: Ghost(Seq::empty()),
        };
        assert(context@.targets =~= Map::empty());
        assert(context@.targets_order =~= Seq::empty());
        context
    }

    /// The position of `name` among the registered names.
    fn position(&self, name: &str) -> (found: Option<usize>)
        requires
            self.wf(),
        ensures
            match found {
                Some(i) => i < self.targets_order.len() && self.targets_order@[i as int]@ == name@
                    && names_of(self.targets_order@).contains(name@)
                    && slot(names_of(self.targets_order@), name@) == i,
                None => !names_of(self.targets_order@).contains(name@),
            },
    {
        let mut i: usize = 0;
        while i < self.targets_order.len()
            invariant
                self.wf(),
                i <= self.targets_order.len(),
                forall|j: int| 0 <= j < i ==> self.targets_order@[j]@ != name@,
            decreases self.targets_order.len() - i,
        {
            if same_text(self.targets_order[i].as_str(), name) {
                proof {
                    lemma_slot(names_of(self.targets_order@), i as int);
                }
                return Some(i);
            }
            i += 1;
        }
        None
    }

    /// The place of `name` in the order of registration, if it is registered.
    pub fn index_of(&self, name: &str) -> (place: Option<usize>)
        requires
            self.wf(),
        ensures
            match place {
                Some(i) => i < self@.targets_order.len() && self@.targets_order[i as int] == name@
                    && self@.is_registered(name@),
                None => !self@.is_registered(name@),
            },
    {
        self.position(name)
    }

    /// Obtain all registered targets, in the order of `targets_order`.
    pub fn targets(&self) -> (all: &Vec<Target>)
        requires
            self.wf(),
        ensures
            all.len() == self@.targets_order.len(),
            forall|i: int|
                0 <= i < all.len() ==> (#[trigger] all@[i])@ == self@.targets[self@.targets_order[i]],
    {
        proof {
            let names = names_of(self.targets_order@);
            assert forall|i: int| 0 <= i < self.targets.len() implies (#[trigger] self.targets@[i])@
                == self@.targets[names[i]] by {
                lemma_slot(names, i);
            }
        }
        &self.targets
    }

    /// Obtain the default target to resolve.
    pub fn default_target(&self) -> (name: Option<&str>)
        ensures
            match name {
                Some(s) => self@.default_target == Some(s@),
                None => self@.default_target is None,
            },
    {
        match &self.default_target {
            Some(s) => Some(s.as_str()),
            None => None,
        }
    }

    /// Obtain a named target.
    pub fn get_target(&self, target: &str) -> (found: Option<&Target>)
        requires
            self.wf(),
        ensures
            match found {
                Some(entry) => self@.is_registered(target@) && entry@ == self@.targets[target@],
                None => !self@.is_registered(target@),
            },
    {
        match self.position(target) {
            Some(i) => Some(&self.targets[i]),
            None => None,
        }
    }

    /// Obtain a mutable named target. What the caller leaves in it is what
    /// the registry then holds under that name.
    pub fn get_target_mut(&mut self, target: &str) -> (found: Option<&mut Target>)
        requires
            old(self).wf(),
        ensures
            final(self).wf(),
            match found {
                Some(entry) => old(self)@.is_registered(target@) && (*entry)@ == old(self)@.targets[target@]
                    && final(self)@ == (ContextView {
                    targets: old(self)@.targets.insert(target@, (*final(entry))@),
                    ..old(self)@
                }),
                None => !old(self)@.is_registered(target@) && final(self)@ == old(self)@,
            },
    {
        match self.position(target) {
            Some(i) => {
                proof {
                    self.lemma_entry_replaced(i as int);
                }
                Some(&mut self.targets[i])
            },
            None => None,
        }
    }

    /// Whether `after` is `self` with another target in place `i`.
    spec fn entry_replaced(&self, after: EnvironmentContext, i: int) -> bool {
        &&& after.targets@ == self.targets@.update(i, after.targets@[i])
        &&& after.targets_order == self.targets_order
        &&& after.default_target == self.default_target
        &&& after.resolve_targets == self.resolve_targets
        &&& after.default_build_script_target == self.default_build_script_target
        &&& after.build_script_mode == self.build_script_mode
        &&& after.invoked == self.invoked
    }

    /// Replacing the target in place `i` replaces it under its name, and
    /// nothing else.
    proof fn lemma_entry_replaced(&self, i: int)
        requires
            self.wf(),
            0 <= i < self.targets.len(),
        ensures
            forall|after: EnvironmentContext|
                self.entry_replaced(after, i) ==> #[trigger] after.wf(),
            forall|after: EnvironmentContext|
                self.entry_replaced(after, i) ==> #[trigger] after@ == (ContextView {
                    targets: self@.targets.insert(self@.targets_order[i], after.targets@[i]@),
                    ..self@
                }),
    {
        let names = names_of(self.targets_order@);
        lemma_slot(names, i);
        assert forall|after: EnvironmentContext| self.entry_replaced(after, i) implies #[trigger] after@
            == (ContextView {
            targets: self@.targets.insert(names[i], after.targets@[i]@),
            ..self@
        }) by {
            assert forall|name: Seq<char>| names.contains(name) implies (
            #[trigger] after@.targets[name]) == self@.targets.insert(
                names[i],
                after.targets@[i]@,
            )[name] by {
                let j = slot(names, name);
                lemma_slot(names, j);
            }
            assert(after@.targets =~= self@.targets.insert(names[i], after.targets@[i]@));
        }
    }

    /// Set the list of targets to resolve.
    pub fn set_resolve_targets(&mut self, targets: Vec<String>)
        requires
            old(self).wf(),
        ensures
            final(self).wf(),
            final(self)@ == (ContextView {
                resolve_targets: Some(names_of(targets@)),
                ..old(self)@
            }),
    {
        self.resolve_targets = Some(targets);
    }

    /// Switch build script mode on or off, as an assignment to
    /// `build_script_mode` does.
    pub fn set_build_script_mode(&mut self, on: bool)
        requires
            old(self).wf(),
        ensures
            final(self).wf(),
            final(self)@ == (ContextView { build_script_mode: on, ..old(self)@ }),
    {
        self.build_script_mode = on;
    }

    /// Name the default target of build script mode, or none, as an
    /// assignment to `default_build_script_target` does.
    pub fn set_default_build_script_target(&mut self, target: Option<String>)
        requires
            old(self).wf(),
        ensures
            final(self).wf(),
            final(self)@ == (ContextView {
                default_build_script_target: name_of(target),
                ..old(self)@
            }),
    {
        self.default_build_script_target = target;
    }

    /// Obtain the order that targets were registered in.
    pub fn targets_order(&self) -> (order: &Vec<String>)
        ensures
            names_of(order@) == self@.targets_order,
    {
        &self.targets_order
    }

    /// Register a named target: a fresh target under that name, replacing
    /// what the name stood for, cached result included.
    pub fn register_target(
        &mut self,
        target: String,
        callable: Value,
        depends: Vec<String>,
        default: bool,
        default_build_script: bool,
    )
        requires
            old(self).wf(),
        ensures
            final(self).wf(),
            final(self)@ == old(self)@.register(
                target@,
                callable,
                names_of(depends@),
                default,
                default_build_script,
            ),
    {
        let ghost before = *self;
        let ghost names = names_of(self.targets_order@);
        let entry = Target { callable, depends, resolved_value: None, built_target: None };
        let ghost fresh = entry@;
        match self.position(target.as_str()) {
            Some(i) => {
                self.targets[i] = entry;
                proof {
                    assert(self.targets@ == before.targets@.update(i as int, entry));
                    assert forall|name: Seq<char>| names.contains(name) implies (
                    #[trigger] self@.targets[name]) == before@.targets.insert(target@, fresh)[name] by {
                        let j = slot(names, name);
                        lemma_slot(names, j);
                    }
                    assert(self@.targets =~= before@.targets.insert(target@, fresh));
                }
            },
            None => {
                self.targets_order.push(target.clone());
                self.targets.push(entry);
                proof {
                    let grown = names_of(self.targets_order@);
                    assert(grown =~= names.push(target@));
                    assert(grown.no_duplicates());
                    lemma_slot(grown, names.len() as int);
                    assert forall|name: Seq<char>| names.contains(name) implies (
                    #[trigger] self@.targets[name]) == before@.targets[name] by {
                        let j = slot(names, name);
                        lemma_slot(names, j);
                        assert(grown[j] == name);
                        lemma_slot(grown, j);
                    }
                    assert forall|name: Seq<char>| grown.contains(name) implies names.contains(name)
                        || name == target@ by {
                        let j = slot(grown, name);
                        if j < names.len() {
                            assert(names[j] == name);
                        }
                    }
                    assert forall|name: Seq<char>| names.contains(name) implies grown.contains(
                        name,
                    ) by {
                        let j = slot(names, name);
                        assert(grown[j] == name);
                    }
                    assert(grown[names.len() as int] == target@);
                    assert(self@.targets =~= before@.targets.insert(target@, fresh));
                }
            },
        }
        if default || self.default_target.is_none() {
            self.default_target = Some(target.clone());
        }
        if default_build_script || self.default_build_script_target.is_none() {
            self.default_build_script_target = Some(target);
        }
    }

    /// Keep `value` as the result of `target`, if such a target is registered.
    pub fn set_resolved_value(&mut self, target: &str, value: Value)
        requires
            old(self).wf(),
        ensures
            final(self).wf(),
            final(self)@ == old(self)@.with_resolved_value(target@, value),
    {
        match self.position(target) {
            Some(i) => {
                proof {
                    self.lemma_entry_replaced(i as int);
                }
                let ghost before = *self;
                self.targets[i].resolved_value = Some(value);
                assert(before.entry_replaced(*self, i as int));
            },
            None => {},
        }
    }

    /// Note one call of a callable in the record of calls.
    pub(crate) fn note_invocation(&mut self, Ghost(invocation): Ghost<Invocation>)
        requires
            old(self).wf(),
        ensures
            final(self).wf(),
            final(self)@ == (ContextView {
                invocations: old(self)@.invocations.push(invocation),
                ..old(self)@
            }),
    {
        self.invoked = Ghost(self.invoked@.push(invocation));
    }

    /// Determine what targets should be resolved.
    ///
    /// This isn't the full list of targets that will be resolved, only the main
    /// targets that we will instruct the resolver to resolve.
    pub fn targets_to_resolve(&self) -> (names: Vec<String>)
        ensures
            names_of(names@) == self@.targets_to_resolve(),
    {
        match &self.resolve_targets {
            Some(targets) => clone_names(targets),
            None => {
                let chosen = if self.build_script_mode && self.default_build_script_target.is_some() {
                    &self.default_build_script_target
                } else {
                    &self.default_target
                };
                match chosen {
                    Some(target) => {
                        let name = target.clone();
                        let names = vec![name];
                        assert(names_of(names@) =~= seq![name@]);
                        names
                    },
                    None => {
                        let names: Vec<String> = Vec::new();
                        assert(names_of(names@) =~= Seq::<Seq<char>>::empty());
                        names
                    },
                }
            },
        }
    }
}

/// Registering keeps the registry well formed: a new name is listed last,
/// a known name keeps its place, and either way the name then stands for a
/// target that is not resolved.
pub proof fn lemma_register_keeps_order(
    registry: ContextView,
    name: Seq<char>,
    callable: Value,
    depends: Seq<Seq<char>>,
    default: bool,
    default_build_script: bool,
)
    requires
        registry.well_formed(),
    ensures
        ({
            let after = registry.register(name, callable, depends, default, default_build_script);
            &&& after.well_formed()
            &&& registry.targets_order.is_prefix_of(after.targets_order)
            &&& after.is_registered(name)
            &&& after.cached(name) is None
            &&& registry.is_registered(name) ==> after.targets_order == registry.targets_order
            &&& !registry.is_registered(name) ==> after.targets_order.last() == name
        }),
{
    let after = registry.register(name, callable, depends, default, default_build_script);
    if !registry.is_registered(name) {
        let count = registry.targets_order.len() as int;
        assert(!registry.targets_order.contains(name));
        assert forall|i: int, j: int|
            0 <= i < after.targets_order.len() && 0 <= j < after.targets_order.len() && i
                != j implies after.targets_order[i] != after.targets_order[j] by {
            if i < count && j < count {
                assert(registry.targets_order[i] != registry.targets_order[j]);
            } else if i < count {
                assert(registry.targets_order.contains(registry.targets_order[i]));
            } else if j < count {
                assert(registry.targets_order.contains(registry.targets_order[j]));
            }
        }
        assert(after.targets_order.no_duplicates());
        assert(after.targets_order.last() == name);
        assert(registry.targets_order.is_prefix_of(after.targets_order));
        assert forall|other: Seq<char>|
            after.targets.dom().contains(other) <==> after.targets_order.contains(other) by {
            if registry.targets_order.contains(other) {
                let i = slot(registry.targets_order, other);
                assert(after.targets_order[i] == other);
            }
            if other == name {
                assert(after.targets_order[registry.targets_order.len() as int] == name);
            }
            if after.targets_order.contains(other) {
                let i = slot(after.targets_order, other);
                if i < registry.targets_order.len() {
                    assert(registry.targets_order[i] == other);
                }
            }
        }
    }
}

/// The first target ever registered becomes the default, of either kind,
/// whether it claims to be or not.
pub proof fn lemma_first_registration_is_default(
    name: Seq<char>,
    callable: Value,
    depends: Seq<Seq<char>>,
    default: bool,
    default_build_script: bool,
)
    ensures
        ({
            let after = ContextView::empty().register(
                name,
                callable,
                depends,
                default,
                default_build_script,
            );
            &&& after.default_target == Some(name)
            &&& after.default_build_script_target == Some(name)
            &&& after.targets_order == seq![name]
        }),
{
    let after = ContextView::empty().register(name, callable, depends, default, default_build_script);
    assert(after.targets_order =~= seq![name]);
}

/// A registration that claims to be the default becomes it; one that does
/// not leaves a default that is there. The two kinds of default go by
/// their own claims.
pub proof fn lemma_default_claims(
    registry: ContextView,
    name: Seq<char>,
    callable: Value,
    depends: Seq<Seq<char>>,
    default: bool,
    default_build_script: bool,
)
    ensures
        ({
            let after = registry.register(name, callable, depends, default, default_build_script);
            &&& default ==> after.default_target == Some(name)
            &&& !default && registry.default_target is Some ==> after.default_target
                == registry.default_target
            &&& default_build_script ==> after.default_build_script_target == Some(name)
            &&& !default_build_script && registry.default_build_script_target is Some
                ==> after.default_build_script_target == registry.default_build_script_target
        }),
{
}

/// After a first registration without a claim, a second that claims to be
/// the default and a third without a claim, the second is the default.
pub proof fn lemma_latest_claim_wins(
    first: Seq<char>,
    second: Seq<char>,
    third: Seq<char>,
    callable: Value,
    depends: Seq<Seq<char>>,
)
    ensures
        ({
            let one = ContextView::empty().register(first, callable, depends, false, false);
            let two = one.register(second, callable, depends, true, false);
            let three = two.register(third, callable, depends, false, false);
            &&& one.default_target == Some(first)
            &&& two.default_target == Some(second)
            &&& three.default_target == Some(second)
        }),
{
}

/// An explicit list of targets to resolve is what gets resolved, whatever
/// the mode and the defaults.
pub proof fn lemma_explicit_list_wins(registry: ContextView, list: Seq<Seq<char>>)
    requires
        registry.resolve_targets == Some(list),
    ensures
        registry.targets_to_resolve() == list,
{
}

/// Without an explicit list, build script mode resolves the build script
/// default where there is one, whatever the other default is; else the
/// default is resolved where there is one, and nothing where there is none.
pub proof fn lemma_defaults_to_resolve(registry: ContextView)
    requires
        registry.resolve_targets is None,
    ensures
        registry.build_script_mode && registry.default_build_script_target is Some
            ==> registry.targets_to_resolve() == seq![registry.default_build_script_target->Some_0],
        !(registry.build_script_mode && registry.default_build_script_target is Some)
            && registry.default_target is Some ==> registry.targets_to_resolve()
            == seq![registry.default_target->Some_0],
        !(registry.build_script_mode && registry.default_build_script_target is Some)
            && registry.default_target is None ==> registry.targets_to_resolve() == Seq::<
            Seq<char>,
        >::empty(),
{
}

} // verus!
