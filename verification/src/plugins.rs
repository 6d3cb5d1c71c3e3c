//! What a native noise or truncation plugin declares, and whether it is accepted.

use vstd::prelude::*;

verus! {

/// The only interface version plugins may target.
pub const PLUGIN_ABI_VERSION: u32 = 1;

/// What a model reads, besides a term's weight.
#[derive(Clone, Copy, PartialEq, Eq, Debug, Structural)]
pub struct Depends {
    /// The term's key.
    pub on_key: bool,
    /// The circuit position.
    pub on_layer: bool,
}

impl Depends {
    /// The bits a declaration is made of: one for the key, two for the circuit position.
    pub open spec fn mask(self) -> u32 {
        match (self.on_key, self.on_layer) {
            (false, false) => 0,
            (true, false) => 1,
            (false, true) => 2,
            (true, true) => 3,
        }
    }

    /// Reads nothing but the weight.
    pub fn none() -> (d: Self)
        ensures
            !d.on_key,
            !d.on_layer,
    {
        Depends { on_key: false, on_layer: false }
    }

    /// Reads a declaration. `None` if it has bits that mean nothing.
    pub fn from_bits(bits: u32) -> (r: Option<Self>)
        ensures
            match r {
                Some(d) => d.mask() == bits,
                None => bits > 3,
            },
    {
        match bits {
            0 => Some(Depends { on_key: false, on_layer: false }),
            1 => Some(Depends { on_key: true, on_layer: false }),
            2 => Some(Depends { on_key: false, on_layer: true }),
            3 => Some(Depends { on_key: true, on_layer: true }),
            _ => None,
        }
    }

    /// The declaration's bits.
    pub fn bits(&self) -> (b: u32)
        ensures
            b == self.mask(),
            b <= 3,
    {
        match (self.on_key, self.on_layer) {
            (false, false) => 0,
            (true, false) => 1,
            (false, true) => 2,
            (true, true) => 3,
        }
    }

    /// Whether the model reads the term's key.
    pub fn key(&self) -> (r: bool)
        ensures
            r == self.on_key,
    {
        self.on_key
    }

    /// Whether the model reads the circuit position.
    pub fn layer(&self) -> (r: bool)
        ensures
            r == self.on_layer,
    {
        self.on_layer
    }
}

/// A declaration says what it was made from: reading its bits gives it back.
pub proof fn law_depends_round_trip(a: Depends, b: Depends)
    requires
        a.mask() == b.mask(),
    ensures
        a == b,
{
}

/// Where in a circuit a factor is asked for.
#[derive(Clone, Copy, PartialEq, Eq, Debug, Structural)]
pub struct LayerContext {
    /// The layer, counted from zero.
    pub index: u32,
    /// Layers in the circuit.
    pub total: u32,
}

impl LayerContext {
    /// Layer `index` of `total`.
    pub fn new(index: u32, total: u32) -> (l: Self)
        ensures
            l.index == index,
            l.total == total,
    {
        LayerContext { index, total }
    }
}

/// Why a plugin is turned away.
#[derive(Clone, Copy, PartialEq, Eq, Debug, Structural)]
pub enum PluginError {
    /// It exports no interface version.
    NoVersion,
    /// It targets another interface version.
    WrongVersion(u32),
    /// It declares that it reads something unknown.
    UnknownDepends(u32),
    /// It does not export its entry point.
    NoEntryPoint,
    /// It exports only one of the functions that make and destroy its context.
    HalfLifecycle,
}

/// The interface version that a plugin exports, if any, is the one there is.
pub fn check_version(version: Option<u32>) -> (r: Result<(), PluginError>)
    ensures
        r == (match version {
            Some(v) => if v == PLUGIN_ABI_VERSION {
                Ok::<(), PluginError>(())
            } else {
                Err(PluginError::WrongVersion(v))
            },
            None => Err(PluginError::NoVersion),
        }),
{
    match version {
        Some(v) => if v == PLUGIN_ABI_VERSION {
            Ok(())
        } else {
            Err(PluginError::WrongVersion(v))
        },
        None => Err(PluginError::NoVersion),
    }
}

/// What a plugin reads, given the bits it declares, if any.
pub fn check_depends(declared: Option<u32>) -> (r: Result<Depends, PluginError>)
    ensures
        match r {
            Ok(d) => match declared {
                Some(b) => d.mask() == b,
                None => !d.on_key && !d.on_layer,
            },
            Err(e) => declared matches Some(b) && b > 3 && e == PluginError::UnknownDepends(b),
        },
{
    match declared {
        Some(b) => match Depends::from_bits(b) {
            Some(d) => Ok(d),
            None => Err(PluginError::UnknownDepends(b)),
        },
        None => Ok(Depends::none()),
    }
}

/// Whether a plugin's exports are complete: its entry point, and both or neither of the functions
/// that make and destroy its context.
pub fn check_exports(entry: bool, create: bool, destroy: bool) -> (r: Result<(), PluginError>)
    ensures
        r == (if !entry {
            Err::<(), PluginError>(PluginError::NoEntryPoint)
        } else if create != destroy {
            Err(PluginError::HalfLifecycle)
        } else {
            Ok(())
        }),
{
    if !entry {
        Err(PluginError::NoEntryPoint)
    } else if create != destroy {
        Err(PluginError::HalfLifecycle)
    } else {
        Ok(())
    }
}

/// Whether a configuration can be handed to a plugin, which reads it up to a zero byte: if the
/// plugin makes a context and the configuration holds a zero byte, it is turned away, with the
/// place of the first one.
pub fn check_config(creates: bool, config: Option<&[u8]>) -> (r: Result<(), usize>)
    ensures
        match r {
            Ok(_) => creates && config is Some ==> config.unwrap()@.index_of_first(0u8) is None,
            Err(at) => creates && config is Some && config.unwrap()@.index_of_first(0u8) == Some(
                at as int,
            ),
        },
{
    if !creates {
        return Ok(());
    }
    let bytes: &[u8] = match config {
        Some(bytes) => bytes,
        None => {
            return Ok(());
        },
    };
    let mut i: usize = 0;
    while i < bytes.len()
        invariant
            creates,
            config == Some(bytes),
            i <= bytes@.len(),
            forall|k: int| 0 <= k < i ==> #[trigger] bytes@[k] != 0,
        decreases bytes@.len() - i,
    {
        if bytes[i] == 0 {
            proof {
                bytes@.index_of_first_ensures(0u8);
                assert(bytes@[i as int] == 0u8);
            }
            return Err(i);
        }
        i += 1;
    }
    proof {
        bytes@.index_of_first_ensures(0u8);
    }
    Ok(())
}

/// Accepts a plugin by what it exports, or says why not: the first fault counts.
pub fn accept_plugin(
    version: Option<u32>,
    declared: Option<u32>,
    entry: bool,
    create: bool,
    destroy: bool,
) -> (r: Result<Depends, PluginError>)
    ensures
        match r {
            Ok(d) => version == Some(PLUGIN_ABI_VERSION) && entry && create == destroy && (
            match declared {
                Some(b) => d.mask() == b,
                None => !d.on_key && !d.on_layer,
            }),
            Err(PluginError::NoVersion) => version is None,
            Err(PluginError::WrongVersion(v)) => version == Some(v) && v != PLUGIN_ABI_VERSION,
            Err(PluginError::UnknownDepends(b)) => version == Some(PLUGIN_ABI_VERSION) && declared
                == Some(b) && b > 3,
            Err(PluginError::NoEntryPoint) => version == Some(PLUGIN_ABI_VERSION) && !(
            declared matches Some(b) && b > 3) && !entry,
            Err(PluginError::HalfLifecycle) => version == Some(PLUGIN_ABI_VERSION) && !(
            declared matches Some(b) && b > 3) && entry && create != destroy,
        },
{
    match check_version(version) {
        Ok(_) => {},
        Err(e) => {
            return Err(e);
        },
    }
    let d: Depends = match check_depends(declared) {
        Ok(d) => d,
        Err(e) => {
            return Err(e);
        },
    };
    match check_exports(entry, create, destroy) {
        Ok(_) => Ok(d),
        Err(e) => Err(e),
    }
}

/// The low bit of a declaration says that the plugin reads keys, the next that it reads the
/// circuit position, and no other bit is used.
pub proof fn law_depends_bits(d: Depends)
    ensures
        d.mask() % 2 == 1 <==> d.on_key,
        d.mask() / 2 == 1 <==> d.on_layer,
        d.mask() < 4,
{
}

} // verus!
