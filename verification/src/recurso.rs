use vstd::prelude::*;

verus! {

/// A resource that one holder at a time can take.
pub struct Recurso {
    pub id: u32,
    disponible: bool,
}

/// A resource as contracts see it.
pub struct RecursoView {
    pub id: u32,
    pub disponible: bool,
}

impl View for Recurso {
    type V = RecursoView;

    closed spec fn view(&self) -> RecursoView {
        RecursoView { id: self.id, disponible: self.disponible }
    }
}

impl Recurso {
    /// A free resource.
    pub fn nuevo(id: u32) -> (recurso: Self)
        ensures
            recurso@ == (RecursoView { id, disponible: true }),
    {
        Recurso { id, disponible: true }
    }

    /// Takes the resource if it is free, and says whether it did.
    pub fn solicitar(&mut self) -> (tomado: bool)
        ensures
            tomado == old(self)@.disponible,
            final(self)@ == (RecursoView { disponible: false, ..old(self)@ }),
    {
        if self.disponible {
            self.disponible = false;
            true
        } else {
            false
        }
    }

    /// Frees the resource.
    pub fn liberar(&mut self)
        ensures
            final(self)@ == (RecursoView { disponible: true, ..old(self)@ }),
    {
        self.disponible = true;
    }
}

} // verus!
