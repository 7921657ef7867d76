//! The kinds of task, and the fingerprint under which a persistent task is
//! memoized.

use crate::value::Value;
use vstd::prelude::*;
use vstd::utf8::{encode_utf8, encode_utf8_decode_utf8};

verus! {

/// A task that is never memoized. Its body is a producer that the caller
/// keeps; the engine anchors the task until it is released.
#[derive(Clone, Copy, Debug, PartialEq, Eq, Structural)]
pub enum TransientTaskType {
    /// A task that may run again whenever it is invalidated.
    Root,
    /// A task that completes at most once and then holds its result.
    Once,
}

/// A task that its inputs determine. Two requests with the same kind, the
/// same function or trait and the same inputs name the same task.
#[derive(Debug)]
pub enum PersistentTaskType {
    /// A call of the native function with this id on these inputs.
    Native(usize, Vec<Value>),
    /// The same call, whose inputs are resolved before it is made.
    ResolveNative(usize, Vec<Value>),
    /// A call of the named method of the trait with this id, dispatched when
    /// it runs.
    ResolveTrait(usize, String, Vec<Value>),
}

/// A persistent task type as plain values.
pub enum PersistentTaskTypeView {
    Native(usize, Seq<Value>),
    ResolveNative(usize, Seq<Value>),
    ResolveTrait(usize, Seq<char>, Seq<Value>),
}

impl View for PersistentTaskType {
    type V = PersistentTaskTypeView;

    open spec fn view(&self) -> PersistentTaskTypeView {
        match self {
            PersistentTaskType::Native(function, inputs) => PersistentTaskTypeView::Native(*function, inputs@),
            PersistentTaskType::ResolveNative(function, inputs) => PersistentTaskTypeView::ResolveNative(
                *function,
                inputs@,
            ),
            PersistentTaskType::ResolveTrait(trait_id, name, inputs) => PersistentTaskTypeView::ResolveTrait(
                *trait_id,
                name@,
                inputs@,
            ),
        }
    }
}

impl PersistentTaskTypeView {
    /// The number that tells the kinds apart.
    pub open spec fn discriminator(self) -> u64 {
        match self {
            PersistentTaskTypeView::Native(..) => 0,
            PersistentTaskTypeView::ResolveNative(..) => 1,
            PersistentTaskTypeView::ResolveTrait(..) => 2,
        }
    }

    /// The id of the function or of the trait.
    pub open spec fn target(self) -> usize {
        match self {
            PersistentTaskTypeView::Native(function, _) => function,
            PersistentTaskTypeView::ResolveNative(function, _) => function,
            PersistentTaskTypeView::ResolveTrait(trait_id, _, _) => trait_id,
        }
    }

    /// The inputs.
    pub open spec fn inputs(self) -> Seq<Value> {
        match self {
            PersistentTaskTypeView::Native(_, inputs) => inputs,
            PersistentTaskTypeView::ResolveNative(_, inputs) => inputs,
            PersistentTaskTypeView::ResolveTrait(_, _, inputs) => inputs,
        }
    }

    /// The bytes of the method name; none where the kind has no name.
    pub open spec fn name_bytes(self) -> Seq<u8> {
        match self {
            PersistentTaskTypeView::ResolveTrait(_, name, _) => encode_utf8(name),
            _ => Seq::empty(),
        }
    }

    /// The fingerprint: the discriminator, the target, the number of inputs,
    /// then tag and payload of each input, then the bytes of the method name.
    pub open spec fn fingerprint(self) -> Seq<u64> {
        let inputs = self.inputs();
        let name = self.name_bytes();
        Seq::new(
            3 + 2 * inputs.len() + name.len(),
            |i: int|
                if i == 0 {
                    self.discriminator()
                } else if i == 1 {
                    self.target() as u64
                } else if i == 2 {
                    inputs.len() as u64
                } else if i < 3 + 2 * inputs.len() {
                    if (i - 3) % 2 == 0 {
                        inputs[(i - 3) / 2].tag
                    } else {
                        inputs[(i - 3) / 2].payload
                    }
                } else {
                    name[i - 3 - 2 * inputs.len()] as u64
                },
        )
    }
}

/// The fingerprint is free of collisions: two task types with the same
/// fingerprint, each with a number of inputs that fits in 64 bits, are the
/// same task type.
pub proof fn lemma_fingerprint_injective(a: PersistentTaskTypeView, b: PersistentTaskTypeView)
    requires
        a.fingerprint() == b.fingerprint(),
        a.inputs().len() <= u64::MAX,
        b.inputs().len() <= u64::MAX,
    ensures
        a == b,
{
    let fa = a.fingerprint();
    let fb = b.fingerprint();
    assert(fa[0] == fb[0]);
    assert(fa[1] == fb[1]);
    assert(fa[2] == fb[2]);
    assert(fa.len() == fb.len());
    let n = a.inputs().len() as int;
    assert(b.inputs().len() == n);
    assert forall|k: int| 0 <= k < n implies a.inputs()[k] == b.inputs()[k] by {
        assert(fa[3 + 2 * k] == fb[3 + 2 * k]);
        assert(fa[3 + 2 * k + 1] == fb[3 + 2 * k + 1]);
        assert((3 + 2 * k - 3) / 2 == k);
        assert((3 + 2 * k + 1 - 3) / 2 == k);
    }
    assert(a.inputs() =~= b.inputs());
    assert(a.name_bytes().len() == b.name_bytes().len());
    assert forall|k: int| 0 <= k < a.name_bytes().len() implies a.name_bytes()[k] == b.name_bytes()[k] by {
        assert(fa[3 + 2 * n + k] == fb[3 + 2 * n + k]);
    }
    assert(a.name_bytes() =~= b.name_bytes());
    match (a, b) {
        (PersistentTaskTypeView::ResolveTrait(_, name_a, _), PersistentTaskTypeView::ResolveTrait(_, name_b, _)) => {
            encode_utf8_decode_utf8(name_a);
            encode_utf8_decode_utf8(name_b);
        },
        _ => {},
    }
}

impl PersistentTaskType {
    /// The inputs of the task.
    pub fn inputs(&self) -> (inputs: &Vec<Value>)
        ensures
            inputs@ == self@.inputs(),
    {
        match self {
            PersistentTaskType::Native(_, inputs) => inputs,
            PersistentTaskType::ResolveNative(_, inputs) => inputs,
            PersistentTaskType::ResolveTrait(_, _, inputs) => inputs,
        }
    }

    /// The fingerprint under which the task is memoized.
    pub fn fingerprint(&self) -> (key: Vec<u64>)
        ensures
            key@ == self@.fingerprint(),
    {
        let ghost spec_key = self@.fingerprint();
        let mut key: Vec<u64> = Vec::new();
        let inputs = self.inputs();
        match self {
            PersistentTaskType::Native(function, _) => {
                key.push(0);
                key.push(*function as u64);
            },
            PersistentTaskType::ResolveNative(function, _) => {
                key.push(1);
                key.push(*function as u64);
            },
            PersistentTaskType::ResolveTrait(trait_id, _, _) => {
                key.push(2);
                key.push(*trait_id as u64);
            },
        }
        key.push(inputs.len() as u64);
        let mut i: usize = 0;
        while i < inputs.len()
            invariant
                i <= inputs@.len(),
                inputs@ == self@.inputs(),
                spec_key == self@.fingerprint(),
                key@.len() == 3 + 2 * i,
                forall|k: int| 0 <= k < key@.len() ==> key@[k] == spec_key[k],
            decreases inputs@.len() - i,
        {
            key.push(inputs[i].tag);
            key.push(inputs[i].payload);
            proof {
                assert((3 + 2 * i - 3) / 2 == i);
                assert((3 + 2 * i + 1 - 3) / 2 == i);
            }
            i += 1;
        }
        if let PersistentTaskType::ResolveTrait(_, name, _) = self {
            let bytes = name.as_str().as_bytes();
            let mut j: usize = 0;
            while j < bytes.len()
                invariant
                    j <= bytes@.len(),
                    bytes@ == self@.name_bytes(),
                    inputs@ == self@.inputs(),
                    spec_key == self@.fingerprint(),
                    key@.len() == 3 + 2 * inputs@.len() + j,
                    forall|k: int| 0 <= k < key@.len() ==> key@[k] == spec_key[k],
                decreases bytes@.len() - j,
            {
                key.push(bytes[j] as u64);
                j += 1;
            }
        }
        assert(key@ =~= spec_key);
        key
    }
}

} // verus!
