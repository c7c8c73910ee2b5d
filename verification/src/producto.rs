//! El registro del catálogo: id, nombre, precio, stock y conjunto de tags.

use vstd::prelude::*;

verus! {

/// Modelo matemático de un producto: el conjunto de tags se abstrae
/// como un `Set`, de modo que dos productos con los mismos tags en
/// distinto orden tienen la misma vista.
pub ghost struct VistaProducto {
    pub id: u32,
    pub nombre: Seq<char>,
    pub precio: u32,
    pub stock: u32,
    pub tags: Set<Seq<char>>,
}

/// Un registro del catálogo. Los tags se guardan en un `Vec` sin
/// repeticiones (véase `wf`), con semántica de conjunto.
pub struct Producto {
    pub id: u32,
    pub nombre: String,
    pub precio: u32,
    pub stock: u32,
    pub tags: Vec<String>,
}

/// Conjunto de los tags de una lista, vistos como sucesiones de caracteres.
pub open spec fn conjunto_tags(tags: Seq<String>) -> Set<Seq<char>> {
    Set::new(|t: Seq<char>| exists|i: int| 0 <= i < tags.len() && tags[i]@ == t)
}

impl View for Producto {
    type V = VistaProducto;

    open spec fn view(&self) -> VistaProducto {
        VistaProducto {
            id: self.id,
            nombre: self.nombre@,
            precio: self.precio,
            stock: self.stock,
            tags: conjunto_tags(self.tags@),
        }
    }
}

impl Producto {
    /// Buena formación: la lista de tags no repite ninguno.
    pub open spec fn wf(self) -> bool {
        forall|i: int, j: int|
            0 <= i < j < self.tags@.len() ==> self.tags@[i]@ != self.tags@[j]@
    }
}

impl Clone for Producto {
    fn clone(&self) -> (res: Self)
        ensures
            res.id == self.id,
            res.nombre@ == self.nombre@,
            res.precio == self.precio,
            res.stock == self.stock,
            res.tags@ == self.tags@,
            res@ == self@,
            res.wf() == self.wf(),
    {
        let mut tags: Vec<String> = Vec::new();
        let mut i: usize = 0;
        while i < self.tags.len()
            invariant
                0 <= i <= self.tags.len(),
                tags@.len() == i,
                forall|k: int| 0 <= k < i ==> tags@[k] == self.tags@[k],
            decreases self.tags.len() - i,
        {
            tags.push(self.tags[i].clone());
            i += 1;
        }
        proof {
            assert(tags@ =~= self.tags@);
        }
        Producto {
            id: self.id,
            nombre: self.nombre.clone(),
            precio: self.precio,
            stock: self.stock,
            tags,
        }
    }
}

} // verus!
