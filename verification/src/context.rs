//! The per-operation context: an optional diagnostic sink and the plugin
//! registries, held as the plain values the dispatchers consult.

use vstd::prelude::*;
use crate::directory::TagDescriptor;
use crate::sig::Signature;

verus! {

/// A diagnostic sink, implemented by the library's users.
pub trait Logger {
    fn log(&self, error_code: u32, msg: &str);
}

/// A registered parametric-curve plugin: the function types it services,
/// each with its coefficient count.
pub struct CurveTypes {
    pub types: Vec<(i32, usize)>,
}

/// The plugin registries, in registration order.
pub struct Plugins {
    pub parametric_curves: Vec<CurveTypes>,
    /// Tag type signatures with a registered handler.
    pub tag_types: Vec<Signature>,
    /// Custom tags and the types each may be stored as.
    pub tags: Vec<(Signature, TagDescriptor)>,
    /// Intent numbers with a registered plugin.
    pub intents: Vec<u32>,
}

impl Plugins {
    pub fn new() -> (p: Plugins)
        ensures
            p.parametric_curves@.len() == 0,
            p.tag_types@.len() == 0,
            p.tags@.len() == 0,
            p.intents@.len() == 0,
    {
        Plugins {
            parametric_curves: Vec::new(),
            tag_types: Vec::new(),
            tags: Vec::new(),
            intents: Vec::new(),
        }
    }
}

/// The context of an operation.
pub struct Context<'a> {
    logger: Option<&'a dyn Logger>,
    plugins: Plugins,
}

impl<'a> Context<'a> {
    /// Whether a logger is installed.
    pub closed spec fn has_logger(&self) -> bool {
        self.logger is Some
    }

    /// The registries.
    pub closed spec fn regs(&self) -> &Plugins {
        &self.plugins
    }

    /// No logger, empty registries.
    pub fn new() -> (c: Context<'a>)
        ensures
            !c.has_logger(),
            c.regs().parametric_curves@.len() == 0,
            c.regs().tag_types@.len() == 0,
            c.regs().tags@.len() == 0,
            c.regs().intents@.len() == 0,
    {
        Context { logger: None, plugins: Plugins::new() }
    }

    /// A logger, empty registries.
    pub fn with_logger(logger: &'a dyn Logger) -> (c: Context<'a>)
        ensures
            c.has_logger(),
            c.regs().parametric_curves@.len() == 0,
            c.regs().tag_types@.len() == 0,
            c.regs().tags@.len() == 0,
            c.regs().intents@.len() == 0,
    {
        Context { logger: Some(logger), plugins: Plugins::new() }
    }

    /// Hand a diagnostic to the logger, if there is one.
    pub fn log(&self, code: u32, msg: &str) {
        match self.logger {
            Some(l) => l.log(code, msg),
            None => {},
        }
    }

    pub fn plugins(&self) -> (p: &Plugins)
        ensures
            p == self.regs(),
    {
        &self.plugins
    }
}


/// The coefficient count of a built-in parametric curve type; a negative
/// type is the inverse of the positive one and has the same count.
pub open spec fn builtin_count(ty: int) -> Option<nat> {
    let a = if ty < 0 {
        -ty
    } else {
        ty
    };
    if a == 1 || a == 108 || a == 109 {
        Some(1)
    } else if a == 2 {
        Some(3)
    } else if a == 3 || a == 6 {
        Some(4)
    } else if a == 4 || a == 7 || a == 8 {
        Some(5)
    } else if a == 5 {
        Some(7)
    } else {
        None
    }
}

/// The count a registered plugin gives for `ty`: its first entry for `ty`.
pub open spec fn entry_count(types: Seq<(i32, usize)>, ty: i32, j: int) -> Option<usize>
    decreases types.len() - j,
{
    if j < 0 || j >= types.len() {
        None
    } else if types[j].0 == ty {
        Some(types[j].1)
    } else {
        entry_count(types, ty, j + 1)
    }
}

/// The count the first plugin at or after `i` that lists `ty` gives.
pub open spec fn plugin_count(regs: Seq<CurveTypes>, ty: i32, i: int) -> Option<usize>
    decreases regs.len() - i,
{
    if i < 0 || i >= regs.len() {
        None
    } else if entry_count(regs[i].types@, ty, 0) is Some {
        entry_count(regs[i].types@, ty, 0)
    } else {
        plugin_count(regs, ty, i + 1)
    }
}

/// The coefficient count of a parametric curve type known to a context:
/// built-in types first, then the plugins in registration order.
pub open spec fn count_in(regs: Seq<CurveTypes>, ty: i32) -> Option<nat> {
    match builtin_count(ty as int) {
        Some(n) => Some(n),
        None => match plugin_count(regs, ty, 0) {
            Some(n) => Some(n as nat),
            None => None,
        },
    }
}

/// Built-in curve types win: whatever plugins a context holds, a built-in
/// type keeps its built-in coefficient count.
pub proof fn lemma_builtin_wins(regs: Seq<CurveTypes>, ty: i32)
    requires
        builtin_count(ty as int) is Some,
    ensures
        count_in(regs, ty) == builtin_count(ty as int),
{
}

proof fn lemma_plugin_count_push(regs: Seq<CurveTypes>, p: CurveTypes, ty: i32, i: int)
    requires
        0 <= i <= regs.len(),
    ensures
        plugin_count(regs, ty, i) is Some ==> plugin_count(regs.push(p), ty, i) == plugin_count(regs, ty, i),
        plugin_count(regs, ty, i) is None ==> plugin_count(regs.push(p), ty, i) == entry_count(p.types@, ty, 0),
    decreases regs.len() - i,
{
    let q = regs.push(p);
    if i < regs.len() {
        assert(q[i] == regs[i]);
        lemma_plugin_count_push(regs, p, ty, i + 1);
    } else {
        assert(q[i] == p);
        assert(plugin_count(q, ty, i + 1) is None);
    }
}

/// Registration order is priority: registering one more parametric-curve
/// plugin never changes the count of a type the context already knows, and
/// gives an unknown type the count the new plugin lists for it, if any.
pub proof fn lemma_register_curve(regs: Seq<CurveTypes>, p: CurveTypes, ty: i32)
    ensures
        count_in(regs, ty) is Some ==> count_in(regs.push(p), ty) == count_in(regs, ty),
        count_in(regs, ty) is None ==> count_in(regs.push(p), ty) == match entry_count(p.types@, ty, 0) {
            Some(n) => Some(n as nat),
            None => None::<nat>,
        },
{
    lemma_plugin_count_push(regs, p, ty, 0);
}

/// The coefficient count of a built-in parametric curve type.
pub fn parametric_param_count(ty: i32) -> (r: Option<usize>)
    ensures
        match builtin_count(ty as int) {
            Some(n) => r == Some(n as usize),
            None => r is None,
        },
{
    let a: i64 = if ty < 0 {
        -(ty as i64)
    } else {
        ty as i64
    };
    if a == 1 || a == 108 || a == 109 {
        Some(1)
    } else if a == 2 {
        Some(3)
    } else if a == 3 || a == 6 {
        Some(4)
    } else if a == 4 || a == 7 || a == 8 {
        Some(5)
    } else if a == 5 {
        Some(7)
    } else {
        None
    }
}

fn entry_count_exec(types: &Vec<(i32, usize)>, ty: i32) -> (r: Option<usize>)
    ensures
        r == entry_count(types@, ty, 0),
{
    let mut j: usize = 0;
    while j < types.len()
        invariant
            j <= types@.len(),
            entry_count(types@, ty, 0) == entry_count(types@, ty, j as int),
        decreases types.len() - j,
    {
        if types[j].0 == ty {
            return Some(types[j].1);
        }
        j += 1;
    }
    None
}

/// The first registered plugin that services `ty`, for a type that is not
/// built in.
pub fn find_parametric_plugin<'b>(ctx: &'b Context, ty: i32) -> (r: Option<&'b CurveTypes>)
    ensures
        builtin_count(ty as int) is Some ==> r is None,
        builtin_count(ty as int) is None ==> match plugin_count(ctx.regs().parametric_curves@, ty, 0) {
            Some(n) => (r matches Some(p) && entry_count(p.types@, ty, 0) == Some(n)),
            None => r is None,
        },
{
    if parametric_param_count(ty).is_some() {
        return None;
    }
    let regs = &ctx.plugins().parametric_curves;
    let mut i: usize = 0;
    while i < regs.len()
        invariant
            i <= regs@.len(),
            regs == &ctx.regs().parametric_curves,
            builtin_count(ty as int) is None,
            plugin_count(regs@, ty, 0) == plugin_count(regs@, ty, i as int),
        decreases regs.len() - i,
    {
        if entry_count_exec(&regs[i].types, ty).is_some() {
            return Some(&regs[i]);
        }
        i += 1;
    }
    None
}

/// The coefficient count of a parametric curve type: a built-in type's,
/// else the one the first plugin listing the type gives.
pub fn parametric_param_count_in(ctx: &Context, ty: i32) -> (r: Option<usize>)
    ensures
        match count_in(ctx.regs().parametric_curves@, ty) {
            Some(n) => r == Some(n as usize),
            None => r is None,
        },
{
    match parametric_param_count(ty) {
        Some(n) => Some(n),
        None => match find_parametric_plugin(ctx, ty) {
            Some(p) => entry_count_exec(&p.types, ty),
            None => None,
        },
    }
}

impl<'a> Context<'a> {
    /// Register a parametric-curve plugin by the types it services and
    /// their coefficient counts; earlier registrations win.
    pub fn register_parametric_curve(&mut self, types: Vec<(i32, usize)>) -> (r: &mut Context<'a>)
        ensures
            r.has_logger() == old(self).has_logger(),
            r.regs().parametric_curves@ == old(self).regs().parametric_curves@.push(
                CurveTypes { types },
            ),
            r.regs().tag_types@ == old(self).regs().tag_types@,
            r.regs().tags@ == old(self).regs().tags@,
            r.regs().intents@ == old(self).regs().intents@,
            *final(self) == *final(r),
    {
        self.plugins.parametric_curves.push(CurveTypes { types });
        self
    }

    /// Register a handler for a tag type.
    pub fn register_tag_type(&mut self, sig: Signature) -> (r: &mut Context<'a>)
        ensures
            r.has_logger() == old(self).has_logger(),
            r.regs().parametric_curves@ == old(self).regs().parametric_curves@,
            r.regs().tag_types@ == old(self).regs().tag_types@.push(sig),
            r.regs().tags@ == old(self).regs().tags@,
            r.regs().intents@ == old(self).regs().intents@,
            *final(self) == *final(r),
    {
        self.plugins.tag_types.push(sig);
        self
    }

    /// Register a custom tag and the types it may be stored as.
    pub fn register_tag(&mut self, sig: Signature, descriptor: TagDescriptor) -> (r: &mut Context<'a>)
        ensures
            r.has_logger() == old(self).has_logger(),
            r.regs().parametric_curves@ == old(self).regs().parametric_curves@,
            r.regs().tag_types@ == old(self).regs().tag_types@,
            r.regs().tags@ == old(self).regs().tags@.push((sig, descriptor)),
            r.regs().intents@ == old(self).regs().intents@,
            *final(self) == *final(r),
    {
        self.plugins.tags.push((sig, descriptor));
        self
    }

    /// Register a rendering-intent plugin by its intent number.
    pub fn register_intent(&mut self, intent: u32) -> (r: &mut Context<'a>)
        ensures
            r.has_logger() == old(self).has_logger(),
            r.regs().parametric_curves@ == old(self).regs().parametric_curves@,
            r.regs().tag_types@ == old(self).regs().tag_types@,
            r.regs().tags@ == old(self).regs().tags@,
            r.regs().intents@ == old(self).regs().intents@.push(intent),
            *final(self) == *final(r),
    {
        self.plugins.intents.push(intent);
        self
    }

    /// Mutable access to the registries.
    pub fn plugins_mut(&mut self) -> (r: &mut Plugins)
        ensures
            *r == *old(self).regs(),
            *final(self).regs() == *final(r),
            final(self).has_logger() == old(self).has_logger(),
    {
        &mut self.plugins
    }
}

} // verus!
