//! The class and selector registry: class descriptors with single
//! inheritance, and method lookup along the superclass chain.
use vstd::prelude::*;

use crate::error::Fatal;

verus! {

/// An interned selector name.
pub type Selector = u64;

/// An interned class name.
pub type ClassName = u64;

/// A handle on a method implementation.
pub type MethodImpl = u64;

/// A class's position in the registry.
pub type ClassId = usize;

/// One row of a method table.
#[derive(Clone, Copy, Debug, PartialEq, Eq, Structural)]
pub struct MethodEntry {
    pub selector: Selector,
    pub imp: MethodImpl,
}

/// What the registry knows of one class.
pub struct ClassDescriptor {
    pub name: ClassName,
    pub superclass: Option<ClassId>,
    /// Methods for messages sent to instances.
    pub instance_methods: Vec<MethodEntry>,
    /// Methods for messages sent to the class itself.
    pub class_methods: Vec<MethodEntry>,
    /// Whether instances carry native backing state (as opposed to an abstract class).
    pub has_state: bool,
}

/// The method table of one side of a class.
pub open spec fn methods_of(d: ClassDescriptor, class_side: bool) -> Seq<MethodEntry> {
    if class_side {
        d.class_methods@
    } else {
        d.instance_methods@
    }
}

/// The implementation a table gives a selector: its first row for it.
pub open spec fn table_lookup(t: Seq<MethodEntry>, sel: Selector) -> Option<MethodImpl>
    decreases t.len(),
{
    if t.len() == 0 {
        None
    } else if t[0].selector == sel {
        Some(t[0].imp)
    } else {
        table_lookup(t.drop_first(), sel)
    }
}

/// The registry is well formed: every superclass link points to an earlier
/// class (so the hierarchy has no cycles) and no two classes share a name.
pub open spec fn hierarchy_wf(classes: Seq<ClassDescriptor>) -> bool {
    &&& forall|i: int|
        0 <= i < classes.len() ==> (#[trigger] classes[i].superclass matches Some(p) ==> p < i)
    &&& forall|i: int, j: int|
        0 <= i < classes.len() && 0 <= j < classes.len() && i != j ==> #[trigger] classes[i].name
            != #[trigger] classes[j].name
}

/// The implementation that a send of `sel` to class `c` reaches: the entry of
/// `c` itself, else that of its superclass, and so on up to the root.
pub open spec fn resolve_spec(classes: Seq<ClassDescriptor>, c: int, sel: Selector, class_side: bool) -> Option<MethodImpl>
    decreases c,
{
    if 0 <= c < classes.len() {
        match table_lookup(methods_of(classes[c], class_side), sel) {
            Some(m) => Some(m),
            None => match classes[c].superclass {
                Some(p) => if p < c {
                    resolve_spec(classes, p as int, sel, class_side)
                } else {
                    None
                },
                None => None,
            },
        }
    } else {
        None
    }
}

/// The implementation that a send to `super` from a method of class `c` reaches:
/// the walk starts at `c`'s superclass.
pub open spec fn resolve_super_spec(classes: Seq<ClassDescriptor>, c: int, sel: Selector, class_side: bool) -> Option<MethodImpl> {
    if 0 <= c < classes.len() {
        match classes[c].superclass {
            Some(p) => resolve_spec(classes, p as int, sel, class_side),
            None => None,
        }
    } else {
        None
    }
}

/// The `k`-th class up the chain from `c` (`c` itself for 0).
pub open spec fn ancestor(classes: Seq<ClassDescriptor>, c: int, k: nat) -> Option<int>
    decreases k,
{
    if !(0 <= c < classes.len()) {
        None
    } else if k == 0 {
        Some(c)
    } else {
        match classes[c].superclass {
            Some(p) => ancestor(classes, p as int, (k - 1) as nat),
            None => None,
        }
    }
}

/// The entry for `sel` in the table of the `k`-th class up the chain from `c`.
pub open spec fn entry_at(classes: Seq<ClassDescriptor>, c: int, k: nat, sel: Selector, class_side: bool) -> Option<MethodImpl> {
    match ancestor(classes, c, k) {
        Some(a) => table_lookup(methods_of(classes[a], class_side), sel),
        None => None,
    }
}

proof fn lemma_ancestor_step(classes: Seq<ClassDescriptor>, c: int, p: ClassId, k: nat)
    requires
        0 <= c < classes.len(),
        classes[c].superclass == Some(p),
    ensures
        ancestor(classes, c, k + 1) == ancestor(classes, p as int, k),
{
}

/// Resolution finds the nearest class up the chain from `c` whose table has
/// `sel`: the result is that class's entry, and every class below it on the
/// chain lacks one. When resolution finds nothing, no class on the chain has
/// an entry.
pub proof fn lemma_resolve_nearest(classes: Seq<ClassDescriptor>, c: int, sel: Selector, class_side: bool)
    requires
        hierarchy_wf(classes),
        0 <= c < classes.len(),
    ensures
        resolve_spec(classes, c, sel, class_side) matches Some(m) ==> exists|k: nat|
            {
                &&& #[trigger] entry_at(classes, c, k, sel, class_side) == Some(m)
                &&& forall|j: nat|
                    j < k ==> ancestor(classes, c, j) is Some && #[trigger] entry_at(
                        classes,
                        c,
                        j,
                        sel,
                        class_side,
                    ) is None
            },
        resolve_spec(classes, c, sel, class_side) is None ==> forall|k: nat|
            #[trigger] entry_at(classes, c, k, sel, class_side) is None,
    decreases c,
{
    assert(ancestor(classes, c, 0) == Some(c));
    if table_lookup(methods_of(classes[c], class_side), sel) is Some {
        assert(entry_at(classes, c, 0, sel, class_side) == resolve_spec(classes, c, sel, class_side));
    } else {
        assert(entry_at(classes, c, 0, sel, class_side) is None);
        match classes[c].superclass {
            Some(p) => {
                assert(p < c);
                lemma_resolve_nearest(classes, p as int, sel, class_side);
                assert forall|k: nat| k > 0 implies ancestor(classes, c, k) == ancestor(
                    classes,
                    p as int,
                    (k - 1) as nat,
                ) && entry_at(classes, c, k, sel, class_side) == entry_at(
                    classes,
                    p as int,
                    (k - 1) as nat,
                    sel,
                    class_side,
                ) by {
                    lemma_ancestor_step(classes, c, p, (k - 1) as nat);
                }
                if let Some(m) = resolve_spec(classes, c, sel, class_side) {
                    let k0 = choose|k: nat|
                        {
                            &&& #[trigger] entry_at(classes, p as int, k, sel, class_side) == Some(m)
                            &&& forall|j: nat|
                                j < k ==> ancestor(classes, p as int, j) is Some && #[trigger] entry_at(
                                    classes,
                                    p as int,
                                    j,
                                    sel,
                                    class_side,
                                ) is None
                        };
                    assert(entry_at(classes, c, k0 + 1, sel, class_side) == Some(m));
                    assert forall|j: nat| j < k0 + 1 implies ancestor(classes, c, j) is Some
                        && #[trigger] entry_at(classes, c, j, sel, class_side) is None by {
                        if j > 0 {
                            assert(entry_at(classes, p as int, (j - 1) as nat, sel, class_side) is None);
                        }
                    }
                } else {
                    assert forall|k: nat| #[trigger] entry_at(classes, c, k, sel, class_side) is None by {
                        if k > 0 {
                            assert(entry_at(classes, p as int, (k - 1) as nat, sel, class_side) is None);
                        }
                    }
                }
            },
            None => {
                assert forall|k: nat| #[trigger] entry_at(classes, c, k, sel, class_side) is None by {
                    if k > 0 {
                        assert(ancestor(classes, c, k) is None);
                    }
                }
            },
        }
    }
}

/// A send to `super` from a method of `c` never reaches `c`'s own entry: it
/// finds the nearest class strictly above `c` on the chain whose table has
/// `sel`, or nothing when no class above `c` has one.
pub proof fn lemma_resolve_super_skips_own(classes: Seq<ClassDescriptor>, c: int, sel: Selector, class_side: bool)
    requires
        hierarchy_wf(classes),
        0 <= c < classes.len(),
    ensures
        resolve_super_spec(classes, c, sel, class_side) matches Some(m) ==> exists|k: nat|
            {
                &&& k >= 1
                &&& #[trigger] entry_at(classes, c, k, sel, class_side) == Some(m)
                &&& forall|j: nat|
                    1 <= j < k ==> ancestor(classes, c, j) is Some && #[trigger] entry_at(
                        classes,
                        c,
                        j,
                        sel,
                        class_side,
                    ) is None
            },
        resolve_super_spec(classes, c, sel, class_side) is None ==> forall|k: nat|
            k >= 1 ==> #[trigger] entry_at(classes, c, k, sel, class_side) is None,
{
    match classes[c].superclass {
        Some(p) => {
            assert(p < c);
            lemma_resolve_nearest(classes, p as int, sel, class_side);
            assert forall|k: nat| k > 0 implies ancestor(classes, c, k) == ancestor(
                classes,
                p as int,
                (k - 1) as nat,
            ) && entry_at(classes, c, k, sel, class_side) == entry_at(
                classes,
                p as int,
                (k - 1) as nat,
                sel,
                class_side,
            ) by {
                lemma_ancestor_step(classes, c, p, (k - 1) as nat);
            }
            if let Some(m) = resolve_super_spec(classes, c, sel, class_side) {
                let k0 = choose|k: nat|
                    {
                        &&& #[trigger] entry_at(classes, p as int, k, sel, class_side) == Some(m)
                        &&& forall|j: nat|
                            j < k ==> ancestor(classes, p as int, j) is Some && #[trigger] entry_at(
                                classes,
                                p as int,
                                j,
                                sel,
                                class_side,
                            ) is None
                    };
                assert(entry_at(classes, c, k0 + 1, sel, class_side) == Some(m));
                assert forall|j: nat| 1 <= j < k0 + 1 implies ancestor(classes, c, j) is Some
                    && #[trigger] entry_at(classes, c, j, sel, class_side) is None by {
                    assert(entry_at(classes, p as int, (j - 1) as nat, sel, class_side) is None);
                }
            } else {
                assert forall|k: nat| k >= 1 implies #[trigger] entry_at(classes, c, k, sel, class_side) is None by {
                    assert(entry_at(classes, p as int, (k - 1) as nat, sel, class_side) is None);
                }
            }
        },
        None => {
            assert forall|k: nat| k >= 1 implies #[trigger] entry_at(classes, c, k, sel, class_side) is None by {
                assert(ancestor(classes, c, k) is None);
            }
        },
    }
}

/// All registered classes.
pub struct Registry {
    classes: Vec<ClassDescriptor>,
}

impl View for Registry {
    type V = Seq<ClassDescriptor>;

    closed spec fn view(&self) -> Seq<ClassDescriptor> {
        self.classes@
    }
}

/// The implementation `t` gives `sel`, by a scan from the front.
fn lookup_in(t: &Vec<MethodEntry>, sel: Selector) -> (r: Option<MethodImpl>)
    ensures
        r == table_lookup(t@, sel),
{
    let mut i: usize = 0;
    assert(t@.subrange(0, t@.len() as int) =~= t@);
    while i < t.len()
        invariant
            0 <= i <= t@.len(),
            table_lookup(t@, sel) == table_lookup(t@.subrange(i as int, t@.len() as int), sel),
        decreases t@.len() - i,
    {
        let ghost rest = t@.subrange(i as int, t@.len() as int);
        assert(rest.drop_first() =~= t@.subrange(i + 1, t@.len() as int));
        if t[i].selector == sel {
            return Some(t[i].imp);
        }
        i = i + 1;
    }
    None
}

/// Whether two method tables have the same rows in the same order.
fn same_entries(a: &Vec<MethodEntry>, b: &Vec<MethodEntry>) -> (r: bool)
    ensures
        r == (a@ == b@),
{
    if a.len() != b.len() {
        return false;
    }
    let mut i: usize = 0;
    while i < a.len()
        invariant
            a@.len() == b@.len(),
            0 <= i <= a@.len(),
            forall|j: int| 0 <= j < i ==> a@[j] == b@[j],
        decreases a@.len() - i,
    {
        if a[i] != b[i] {
            return false;
        }
        i = i + 1;
    }
    assert(a@ =~= b@);
    true
}

impl Registry {
    pub fn new() -> (r: Self)
        ensures
            r@ == Seq::<ClassDescriptor>::empty(),
    {
        Registry { classes: Vec::new() }
    }

    /// The number of registered classes.
    pub fn len(&self) -> (n: usize)
        ensures
            n == self@.len(),
    {
        self.classes.len()
    }

    /// The superclass of `class`.
    pub fn superclass_of(&self, class: ClassId) -> (p: Option<ClassId>)
        requires
            class < self@.len(),
        ensures
            p == self@[class as int].superclass,
    {
        self.classes[class].superclass
    }

    /// Whether instances of `class` carry native backing state.
    pub fn has_state(&self, class: ClassId) -> (b: bool)
        requires
            class < self@.len(),
        ensures
            b == self@[class as int].has_state,
    {
        self.classes[class].has_state
    }

    /// The class registered under `name`, if any.
    pub fn find_class(&self, name: ClassName) -> (r: Option<ClassId>)
        ensures
            r matches Some(i) ==> i < self@.len() && self@[i as int].name == name,
            r is None ==> forall|i: int| 0 <= i < self@.len() ==> self@[i].name != name,
    {
        let mut i: usize = 0;
        while i < self.classes.len()
            invariant
                0 <= i <= self@.len(),
                self@ == self.classes@,
                forall|j: int| 0 <= j < i ==> self@[j].name != name,
            decreases self@.len() - i,
        {
            if self.classes[i].name == name {
                return Some(i);
            }
            i = i + 1;
        }
        None
    }

    /// Registers a class. Registering a name again with the same superclass,
    /// methods and state marker changes nothing and yields the class already
    /// there; with anything different it is a conflict.
    pub fn register_class(
        &mut self,
        name: ClassName,
        superclass: Option<ClassId>,
        instance_methods: Vec<MethodEntry>,
        class_methods: Vec<MethodEntry>,
        has_state: bool,
    ) -> (res: Result<ClassId, Fatal>)
        requires
            hierarchy_wf(old(self)@),
        ensures
            hierarchy_wf(final(self)@),
            res is Err ==> final(self)@ == old(self)@,
            (superclass matches Some(p) && p >= old(self)@.len()) ==> res == Err::<ClassId, Fatal>(
                Fatal::UnknownClass,
            ),
            !(superclass matches Some(p) && p >= old(self)@.len()) ==> {
                match res {
                    Ok(c) => if c < old(self)@.len() {
                        &&& final(self)@ == old(self)@
                        &&& old(self)@[c as int].name == name
                        &&& old(self)@[c as int].superclass == superclass
                        &&& old(self)@[c as int].instance_methods@ == instance_methods@
                        &&& old(self)@[c as int].class_methods@ == class_methods@
                        &&& old(self)@[c as int].has_state == has_state
                    } else {
                        &&& c == old(self)@.len()
                        &&& forall|i: int| 0 <= i < old(self)@.len() ==> old(self)@[i].name != name
                        &&& final(self)@ == old(self)@.push(
                            ClassDescriptor { name, superclass, instance_methods, class_methods, has_state },
                        )
                    },
                    Err(e) => {
                        &&& e == Fatal::ConflictingRegistration
                        &&& exists|i: int|
                            0 <= i < old(self)@.len() && #[trigger] old(self)@[i].name == name && !(
                            old(self)@[i].superclass == superclass
                                && old(self)@[i].instance_methods@ == instance_methods@
                                && old(self)@[i].class_methods@ == class_methods@
                                && old(self)@[i].has_state == has_state)
                    },
                }
            },
    {
        if let Some(p) = superclass {
            if p >= self.classes.len() {
                return Err(Fatal::UnknownClass);
            }
        }
        match self.find_class(name) {
            Some(i) => {
                let d = &self.classes[i];
                if d.superclass == superclass && same_entries(&d.instance_methods, &instance_methods)
                    && same_entries(&d.class_methods, &class_methods) && d.has_state == has_state {
                    Ok(i)
                } else {
                    Err(Fatal::ConflictingRegistration)
                }
            },
            None => {
                let ghost pre = self@;
                let c = self.classes.len();
                self.classes.push(
                    ClassDescriptor { name, superclass, instance_methods, class_methods, has_state },
                );
                assert(self@ == pre.push(self@[c as int]));
                Ok(c)
            },
        }
    }

    /// The implementation that a send of `sel` to `class` reaches, walking up
    /// from `class` itself.
    pub fn resolve(&self, class: ClassId, sel: Selector, class_side: bool) -> (r: Option<MethodImpl>)
        requires
            hierarchy_wf(self@),
            class < self@.len(),
        ensures
            r == resolve_spec(self@, class as int, sel, class_side),
    {
        let mut cur: usize = class;
        loop
            invariant
                hierarchy_wf(self@),
                self@ == self.classes@,
                cur < self@.len(),
                resolve_spec(self@, class as int, sel, class_side) == resolve_spec(
                    self@,
                    cur as int,
                    sel,
                    class_side,
                ),
            decreases cur,
        {
            let d = &self.classes[cur];
            let table = if class_side {
                &d.class_methods
            } else {
                &d.instance_methods
            };
            match lookup_in(table, sel) {
                Some(m) => {
                    return Some(m);
                },
                None => match d.superclass {
                    Some(p) => {
                        assert(self@[cur as int].superclass == Some(p));
                        cur = p;
                    },
                    None => {
                        return None;
                    },
                },
            }
        }
    }

    /// The implementation that a send to `super` from a method of `current`
    /// reaches: the walk starts above `current`, whatever the receiver's class.
    pub fn resolve_super(&self, current: ClassId, sel: Selector, class_side: bool) -> (r: Option<MethodImpl>)
        requires
            hierarchy_wf(self@),
            current < self@.len(),
        ensures
            r == resolve_super_spec(self@, current as int, sel, class_side),
    {
        match self.classes[current].superclass {
            Some(p) => {
                assert(self@[current as int].superclass == Some(p));
                self.resolve(p, sel, class_side)
            },
            None => None,
        }
    }
}

} // verus!
