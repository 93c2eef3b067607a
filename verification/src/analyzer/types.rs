//! Types of stack values and signatures of words, with their mathematical models.

use vstd::prelude::*;

verus! {

/// The type of one stack value, or a variable that stands for one or for a whole
/// segment of the stack.
#[derive(Debug)]
pub enum Type {
    Int,
    Bool,
    String,
    Var(usize),
    MultiVar(usize),
    Quotation(Signature),
}

/// The stack effect of a word or of a quotation.
///
/// `inputs` lists what is taken off the stack and `outputs` what is left on
/// it, both from the deepest value up: the value on top stands last. A row
/// variable stands first in its list. The one exception is `?`, whose inputs
/// are listed from the top downwards, in its own signature and in what it
/// adds to the inputs of the scope around it.
#[derive(Debug)]
pub struct Signature {
    pub inputs: Vec<Type>,
    pub outputs: Vec<Type>,
}

/// The mathematical model of a [`Type`].
pub enum Ty {
    Int,
    Bool,
    Str,
    Var(nat),
    MultiVar(nat),
    Quotation(Sig),
}

/// The mathematical model of a [`Signature`].
pub struct Sig {
    pub inputs: Seq<Ty>,
    pub outputs: Seq<Ty>,
}

impl Type {
    /// The value that this type stands for in specifications.
    pub open spec fn model(&self) -> Ty
        decreases self,
    {
        match self {
            Type::Int => Ty::Int,
            Type::Bool => Ty::Bool,
            Type::String => Ty::Str,
            Type::Var(n) => Ty::Var(*n as nat),
            Type::MultiVar(n) => Ty::MultiVar(*n as nat),
            Type::Quotation(signature) => Ty::Quotation(
                Sig {
                    inputs: Seq::new(
                        signature.inputs@.len(),
                        |i: int|
                            if 0 <= i < signature.inputs@.len() {
                                signature.inputs@[i].model()
                            } else {
                                Ty::Int
                            },
                    ),
                    outputs: Seq::new(
                        signature.outputs@.len(),
                        |i: int|
                            if 0 <= i < signature.outputs@.len() {
                                signature.outputs@[i].model()
                            } else {
                                Ty::Int
                            },
                    ),
                },
            ),
        }
    }
}

/// The models of the types of `types`, in the same order.
pub open spec fn models(types: Seq<Type>) -> Seq<Ty> {
    Seq::new(types.len(), |i: int| types[i].model())
}

impl Signature {
    pub open spec fn model(&self) -> Sig {
        Sig { inputs: models(self.inputs@), outputs: models(self.outputs@) }
    }
}

/// `Type::Quotation(signature)` stands for the quotation of the signature's model.
pub proof fn lemma_quotation_model(signature: Signature)
    ensures
        Type::Quotation(signature).model() == Ty::Quotation(signature.model()),
{
    assert(Type::Quotation(signature).model()->Quotation_0.inputs =~= models(signature.inputs@));
    assert(Type::Quotation(signature).model()->Quotation_0.outputs =~= models(signature.outputs@));
}

impl Ty {
    /// The number of 64-bit cells that a value of this type takes on the data stack.
    /// A variable has no size.
    pub open spec fn slot_size(self) -> Option<nat> {
        match self {
            Ty::Var(_) | Ty::MultiVar(_) => None,
            Ty::Int | Ty::Bool | Ty::Quotation(_) => Some(1),
            Ty::Str => Some(2),
        }
    }
}

impl Type {
    pub fn size(&self) -> (size: Option<usize>)
        ensures
            size is Some <==> self.model().slot_size() is Some,
            size is Some ==> size->Some_0 == self.model().slot_size()->Some_0,
    {
        match self {
            Type::Var(_) | Type::MultiVar(_) => None,
            Type::Bool => Some(1),
            Type::Int => Some(1),
            Type::Quotation(_) => Some(1),
            Type::String => Some(2),
        }
    }
}

impl Clone for Type {
    /// A deep copy.
    fn clone(&self) -> (copy: Type)
        ensures
            copy.model() == self.model(),
        decreases self, 0nat,
    {
        match self {
            Type::Int => Type::Int,
            Type::Bool => Type::Bool,
            Type::String => Type::String,
            Type::Var(n) => Type::Var(*n),
            Type::MultiVar(n) => Type::MultiVar(*n),
            Type::Quotation(signature) => {
                let inputs = clone_types(&signature.inputs);
                let outputs = clone_types(&signature.outputs);
                let copy = Signature { inputs, outputs };
                proof {
                    lemma_quotation_model(*signature);
                    lemma_quotation_model(copy);
                }
                Type::Quotation(copy)
            },
        }
    }
}

/// Deep copies of `types`, in the same order.
pub fn clone_types(types: &Vec<Type>) -> (copies: Vec<Type>)
    ensures
        models(copies@) == models(types@),
    decreases types, 1nat,
{
    let mut copies: Vec<Type> = Vec::new();
    let mut i: usize = 0;
    while i < types.len()
        invariant
            i <= types@.len(),
            copies@.len() == i,
            forall|k: int| 0 <= k < i ==> (#[trigger] copies@[k]).model() == types@[k].model(),
        decreases types@.len() - i,
    {
        let copy = types[i].clone();
        copies.push(copy);
        i = i + 1;
    }
    assert(models(copies@) =~= models(types@));
    copies
}

impl Signature {
    pub fn new(inputs: Vec<Type>, outputs: Vec<Type>) -> (signature: Self)
        ensures
            signature.inputs == inputs,
            signature.outputs == outputs,
    {
        Self { inputs, outputs }
    }

    pub fn parts(self) -> (parts: (Vec<Type>, Vec<Type>))
        ensures
            parts.0 == self.inputs,
            parts.1 == self.outputs,
    {
        (self.inputs, self.outputs)
    }
}

impl Clone for Signature {
    /// A deep copy.
    fn clone(&self) -> (copy: Signature)
        ensures
            copy.model() == self.model(),
    {
        Signature { inputs: clone_types(&self.inputs), outputs: clone_types(&self.outputs) }
    }
}


pub proof fn lemma_models_push(types: Seq<Type>, t: Type)
    ensures
        models(types.push(t)) == models(types).push(t.model()),
{
    assert(models(types.push(t)) =~= models(types).push(t.model()));
}

pub proof fn lemma_models_empty()
    ensures
        models(Seq::<Type>::empty()) == Seq::<Ty>::empty(),
{
    assert(models(Seq::<Type>::empty()) =~= Seq::<Ty>::empty());
}

} // verus!
