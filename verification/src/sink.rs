use vstd::prelude::*;

verus! {

/// The callback registration's "deliver one header event" capability.
///
/// A caller of `start` supplies one value implementing this trait; the node
/// holds it for its whole lifetime and invokes `deliver` once per header
/// event. Implementations must be safe to invoke from the node's own
/// execution context, not the caller's.
///
/// `events` is the ledger of every byte span delivered to this sink so far,
/// in delivery order; `deliver` appends exactly one entry to it.
pub trait HeaderSink: Sized {
    /// Every header block this sink has received, in delivery order.
    spec fn events(&self) -> Seq<Seq<u8>>;

    /// Receive one header event. The byte span is only guaranteed valid for
    /// the duration of this call; an implementation that wants to keep it
    /// must copy it out.
    fn deliver(&mut self, data: &[u8])
        ensures
            final(self).events() == old(self).events().push(data@),
    ;
}

/// A sink that copies every delivered header block into a vector: the
/// in-crate callback implementation, and the one the tests observe.
pub struct RecordingSink {
    /// The delivered header blocks, oldest first.
    pub received: Vec<Vec<u8>>,
}

impl RecordingSink {
    /// An empty sink: nothing delivered yet.
    pub fn new() -> (s: RecordingSink)
        ensures
            s.events() == Seq::<Seq<u8>>::empty(),
    {
        RecordingSink { received: Vec::new() }
    }

    /// How many header events this sink has received.
    pub fn count(&self) -> (n: usize)
        ensures
            n == self.events().len(),
    {
        self.received.len()
    }
}

impl HeaderSink for RecordingSink {
    open spec fn events(&self) -> Seq<Seq<u8>> {
        self.received.deep_view()
    }

    fn deliver(&mut self, data: &[u8])
        ensures
            final(self).events() == old(self).events().push(data@),
    {
        let mut copy: Vec<u8> = Vec::new();
        let mut i: usize = 0;
        while i < data.len()
            invariant
                i <= data@.len(),
                copy@ == data@.subrange(0, i as int),
            decreases data@.len() - i,
        {
            copy.push(data[i]);
            i = i + 1;
        }
        proof {
            assert(copy@ =~= data@);
        }
        self.received.push(copy);
        proof {
            assert(self.events() =~~= old(self).events().push(data@));
        }
    }
}

} // verus!
