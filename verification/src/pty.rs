//! A terminal device that is no device: what is written to it goes to whoever
//! listens.
use vstd::prelude::*;

verus! {

/// The size of a terminal, in characters and in pixels.
#[derive(Clone, Copy, Debug, PartialEq, Eq, Structural)]
pub struct PtySize {
    pub rows: u16,
    pub cols: u16,
    pub pixel_width: u16,
    pub pixel_height: u16,
}

impl Default for PtySize {
    fn default() -> (size: Self)
        ensures
            size == (PtySize { rows: 0, cols: 0, pixel_width: 0, pixel_height: 0 }),
    {
        PtySize { rows: 0, cols: 0, pixel_width: 0, pixel_height: 0 }
    }
}

/// The device: whether someone listens, and its size. All that use the device
/// share the one value, so there are no copies of it.
#[derive(Debug, PartialEq, Eq, Structural)]
pub struct WasmPty {
    pub has_input_handler: bool,
    pub size: PtySize,
}

impl WasmPty {
    /// Nobody listens yet.
    pub fn new() -> (pty: WasmPty)
        ensures
            !pty.has_input_handler,
            pty.size == (PtySize { rows: 0, cols: 0, pixel_width: 0, pixel_height: 0 }),
    {
        WasmPty { has_input_handler: false, size: PtySize::default() }
    }

    /// Someone listens from now on.
    pub fn set_input_handler(&mut self)
        ensures
            final(self).has_input_handler,
            final(self).size == old(self).size,
    {
        self.has_input_handler = true;
    }

    /// The size.
    pub fn size(&self) -> (size: PtySize)
        ensures
            size == self.size,
    {
        self.size
    }

    /// Sets the size.
    pub fn resize(&mut self, size: PtySize)
        ensures
            final(self).size == size,
            final(self).has_input_handler == old(self).has_input_handler,
    {
        self.size = size;
    }

    /// Takes bytes in: all of them are written, and they are handed on where
    /// someone listens.
    pub fn write(&self, bytes: &Vec<u8>) -> (written: (usize, Option<Vec<u8>>))
        ensures
            written.0 == bytes@.len(),
            written.1 is Some == self.has_input_handler,
            written.1 is Some ==> written.1->0@ == bytes@,
    {
        if self.has_input_handler {
            let copy: Vec<u8> = bytes.clone();
            assert(copy@ =~= bytes@);
            (bytes.len(), Some(copy))
        } else {
            (bytes.len(), None)
        }
    }
}

impl Default for WasmPty {
    fn default() -> (pty: Self)
        ensures
            !pty.has_input_handler,
            pty.size == (PtySize { rows: 0, cols: 0, pixel_width: 0, pixel_height: 0 }),
    {
        WasmPty::new()
    }
}

/// There is no process behind the device.
#[derive(Clone, Copy, Debug, PartialEq, Eq, Structural)]
pub struct WasmChild;

/// Ends the process that is not there.
#[derive(Clone, Copy, Debug, PartialEq, Eq, Structural)]
pub struct WasmChildKiller;

/// A process could not be ended.
#[derive(Clone, Copy, Debug, PartialEq, Eq, Structural)]
pub struct KillError;

impl WasmChildKiller {
    /// There is nothing to end, so that always works.
    pub fn kill(&mut self) -> (result: Result<(), KillError>)
        ensures
            result is Ok,
            *final(self) == *old(self),
    {
        Ok(())
    }
}

impl WasmChild {
    /// What ends the process.
    pub fn clone_killer(&self) -> (killer: WasmChildKiller)
        ensures
            killer == WasmChildKiller,
    {
        WasmChildKiller
    }
}

} // verus!
