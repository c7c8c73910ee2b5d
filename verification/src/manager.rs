//! El gestor del inventario: un mapa primario de registros por id y
//! tres vistas derivadas que se mantienen sincronizadas con él: el
//! índice por tag, el ranking por precio y el conjunto de bajo stock.
//!
//! El ranking se guarda ordenado por precio descendente con una sola
//! entrada por registro vivo; las operaciones de actualización y de
//! borrado lo reparan quitando la entrada del id tocado y, si el
//! registro sigue vivo, reinsertando una entrada fresca.

use vstd::prelude::*;

use crate::producto::Producto;
use crate::producto::VistaProducto;
use crate::producto::conjunto_tags;

verus! {

/// Umbral fijo de bajo stock: por debajo de cinco unidades.
pub const UMBRAL_BAJO_STOCK: u32 = 5;

/// Los fallos que las operaciones devuelven en vez de interrumpir:
/// un id ausente del mapa primario, o una carga cuyo id no deja
/// avanzar el contador.
#[derive(Debug, PartialEq, Eq, Structural)]
pub enum ErrorInventario {
    NoEncontrado(u32),
    IdFueraDeRango(u32),
}

/// Una entrada del ranking de precios.
#[derive(Clone, Copy, Debug)]
pub struct EntradaPrecio {
    pub precio: u32,
    pub id: u32,
}

/// Una cubeta del índice por tag: el tag y los ids que lo llevan.
pub struct CubetaTag {
    pub tag: String,
    pub ids: Vec<u32>,
}

/// ¿Lleva el índice de cubetas al id bajo ese tag?
pub open spec fn en_cubetas(ind: Seq<CubetaTag>, tag: Seq<char>, id: u32) -> bool {
    exists|i: int| 0 <= i < ind.len() && ind[i].tag@ == tag && ind[i].ids@.contains(id)
}

/// Forma de las cubetas: tags sin repetir, ninguna vacía y sin ids
/// repetidos dentro de una cubeta.
pub open spec fn cubetas_bien(ind: Seq<CubetaTag>) -> bool {
    &&& forall|i: int, j: int| 0 <= i < j < ind.len() ==> ind[i].tag@ != ind[j].tag@
    &&& forall|i: int| 0 <= i < ind.len() ==> (#[trigger] ind[i].ids)@.len() > 0
    &&& forall|i: int, k: int, l: int|
        0 <= i < ind.len() && 0 <= k < l < ind[i].ids@.len() ==> #[trigger] ind[i].ids@[k]
            != #[trigger] ind[i].ids@[l]
}

/// ¿Tiene el ranking alguna entrada con ese id?
pub open spec fn tiene_id(rk: Seq<EntradaPrecio>, id: u32) -> bool {
    exists|k: int| 0 <= k < rk.len() && rk[k].id == id
}

/// Orden del ranking: precios no crecientes.
pub open spec fn ordenado_desc(rk: Seq<EntradaPrecio>) -> bool {
    forall|k: int, l: int| 0 <= k <= l < rk.len() ==> rk[k].precio >= rk[l].precio
}

/// Ids del ranking sin repetir.
pub open spec fn ranking_sin_repetidos(rk: Seq<EntradaPrecio>) -> bool {
    forall|k: int, l: int| 0 <= k < l < rk.len() ==> rk[k].id != rk[l].id
}

/// El gestor. El mapa primario es la autoridad: las tres vistas
/// derivadas se pueden reconstruir desde él, y `wf` dice que están
/// sincronizadas.
pub struct InventarioManager {
    productos_por_id: Vec<Producto>,
    productos_por_tag: Vec<CubetaTag>,
    productos_por_precio: Vec<EntradaPrecio>,
    productos_bajo_stock: Vec<u32>,
    siguiente_id: u32,
}

impl InventarioManager {
    /// Los registros vivos, en su orden interno.
    pub closed spec fn lista(self) -> Seq<Producto> {
        self.productos_por_id@
    }

    /// ¿Hay un registro vivo con ese id?
    pub closed spec fn vive(self, id: u32) -> bool {
        exists|i: int| 0 <= i < self.lista().len() && self.lista()[i].id == id
    }

    /// Posición del registro vivo con ese id.
    pub closed spec fn indice_de(self, id: u32) -> int {
        choose|i: int| 0 <= i < self.lista().len() && self.lista()[i].id == id
    }

    /// La vista del registro vivo con ese id.
    pub closed spec fn registro(self, id: u32) -> VistaProducto {
        self.lista()[self.indice_de(id)]@
    }

    /// El modelo del catálogo: el mapa de id a vista de registro.
    pub open spec fn registros(self) -> Map<u32, VistaProducto> {
        Map::new(|id: u32| self.vive(id), |id: u32| self.registro(id))
    }

    /// El contador de ids: el próximo que se emitirá.
    pub closed spec fn siguiente(self) -> u32 {
        self.siguiente_id
    }

    /// ¿Lleva el índice por tag al id bajo ese tag?
    pub closed spec fn en_indice_tags(self, tag: Seq<char>, id: u32) -> bool {
        en_cubetas(self.productos_por_tag@, tag, id)
    }

    /// Los ids que el índice asocia a un tag.
    pub open spec fn ids_con_tag(self, tag: Seq<char>) -> Set<u32> {
        Set::new(|id: u32| self.en_indice_tags(tag, id))
    }

    /// Los ids del conjunto de bajo stock.
    pub closed spec fn ids_bajo_stock(self) -> Set<u32> {
        Set::new(|id: u32| self.productos_bajo_stock@.contains(id))
    }

    spec fn ids_unicos(self) -> bool {
        forall|i: int, j: int|
            0 <= i < j < self.lista().len() ==> self.lista()[i].id != self.lista()[j].id
    }

    spec fn productos_bien(self) -> bool {
        &&& self.siguiente_id >= 1
        &&& forall|i: int|
            0 <= i < self.lista().len() ==> (#[trigger] self.lista()[i]).wf() && self.lista()[i].id
                < self.siguiente_id
    }

    spec fn tags_bien(self) -> bool {
        &&& cubetas_bien(self.productos_por_tag@)
        &&& forall|tag: Seq<char>, id: u32|
            #[trigger] self.en_indice_tags(tag, id) ==> self.vive(id) && self.registro(
                id,
            ).tags.contains(tag)
        &&& forall|i: int, tag: Seq<char>|
            0 <= i < self.lista().len() && #[trigger] self.lista()[i]@.tags.contains(tag)
                ==> self.en_indice_tags(tag, self.lista()[i].id)
    }

    spec fn ranking_bien(self) -> bool {
        &&& self.productos_por_precio@.len() == self.lista().len()
        &&& forall|k: int|
            0 <= k < self.productos_por_precio@.len() ==> self.vive(
                (#[trigger] self.productos_por_precio@[k]).id,
            ) && self.registro(self.productos_por_precio@[k].id).precio
                == self.productos_por_precio@[k].precio
        &&& ranking_sin_repetidos(self.productos_por_precio@)
        &&& ordenado_desc(self.productos_por_precio@)
        &&& forall|i: int|
            0 <= i < self.lista().len() ==> tiene_id(
                self.productos_por_precio@,
                (#[trigger] self.lista()[i]).id,
            )
    }

    spec fn bajo_stock_bien(self) -> bool {
        &&& forall|k: int, l: int|
            0 <= k < l < self.productos_bajo_stock@.len() ==> self.productos_bajo_stock@[k]
                != self.productos_bajo_stock@[l]
        &&& forall|k: int|
            0 <= k < self.productos_bajo_stock@.len() ==> self.vive(
                #[trigger] self.productos_bajo_stock@[k],
            ) && self.registro(self.productos_bajo_stock@[k]).stock < UMBRAL_BAJO_STOCK
        &&& forall|i: int|
            0 <= i < self.lista().len() && (#[trigger] self.lista()[i]).stock < UMBRAL_BAJO_STOCK
                ==> self.productos_bajo_stock@.contains(self.lista()[i].id)
    }

    /// Buena formación del gestor: ids únicos y por debajo del
    /// contador, y las tres vistas derivadas fieles al mapa primario.
    pub closed spec fn wf(self) -> bool {
        &&& self.ids_unicos()
        &&& self.productos_bien()
        &&& self.tags_bien()
        &&& self.ranking_bien()
        &&& self.bajo_stock_bien()
    }

    /// En un gestor bien formado, cada posición del mapa primario es
    /// el único registro con su id, y el modelo la refleja.
    proof fn lemma_registro_en(self, i: int)
        requires
            self.wf(),
            0 <= i < self.lista().len(),
        ensures
            self.vive(self.lista()[i].id),
            self.indice_de(self.lista()[i].id) == i,
            self.registro(self.lista()[i].id) == self.lista()[i]@,
            self.registros().dom().contains(self.lista()[i].id),
            self.registros()[self.lista()[i].id] == self.lista()[i]@,
    {
        let id = self.lista()[i].id;
        assert(self.vive(id));
        let j = self.indice_de(id);
        assert(0 <= j < self.lista().len() && self.lista()[j].id == id);
        if j != i {
            assert(false);
        }
    }

    /// Todo id emitido queda por debajo del contador; con ello, los
    /// ids que las inserciones devuelven son nuevos y crecen
    /// estrictamente de una inserción a la siguiente.
    pub proof fn lemma_id_bajo_contador(self, id: u32)
        requires
            self.wf(),
            self.registros().dom().contains(id),
        ensures
            id < self.siguiente(),
    {
        let i = self.indice_de(id);
    }

    pub fn new() -> (r: Self)
        ensures
            r.wf(),
            r.registros() == Map::<u32, VistaProducto>::empty(),
            r.siguiente() == 1,
            r.lista() == Seq::<Producto>::empty(),
    {
        let r = InventarioManager {
            productos_por_id: Vec::new(),
            productos_por_tag: Vec::new(),
            productos_por_precio: Vec::new(),
            productos_bajo_stock: Vec::new(),
            siguiente_id: 1,
        };
        proof {
            assert(r.registros() =~= Map::<u32, VistaProducto>::empty());
        }
        r
    }

    /// Copia de todos los registros vivos, en su orden interno.
    pub fn obtener_todos_productos(&self) -> (r: Vec<Producto>)
        requires
            self.wf(),
        ensures
            r@.len() == self.lista().len(),
            forall|i: int| 0 <= i < r@.len() ==> r@[i]@ == self.lista()[i]@ && r@[i].wf(),
    {
        let mut r: Vec<Producto> = Vec::new();
        let mut i: usize = 0;
        while i < self.productos_por_id.len()
            invariant
                self.wf(),
                0 <= i <= self.lista().len(),
                r@.len() == i,
                forall|k: int| 0 <= k < i ==> r@[k]@ == self.lista()[k]@ && r@[k].wf(),
            decreases self.productos_por_id.len() - i,
        {
            r.push(self.productos_por_id[i].clone());
            i += 1;
        }
        r
    }
}

/// Posición de un valor en una lista de ids.
fn posicion_u32(v: &Vec<u32>, x: u32) -> (r: Option<usize>)
    ensures
        match r {
            Some(i) => 0 <= i < v@.len() && v@[i as int] == x,
            None => !v@.contains(x),
        },
{
    let mut i: usize = 0;
    while i < v.len()
        invariant
            0 <= i <= v@.len(),
            forall|k: int| 0 <= k < i ==> v@[k] != x,
        decreases v.len() - i,
    {
        if v[i] == x {
            return Some(i);
        }
        i += 1;
    }
    None
}

/// Añade un id a un conjunto guardado como lista sin repetidos.
fn poner_id(v: &mut Vec<u32>, id: u32)
    requires
        forall|k: int, l: int| 0 <= k < l < old(v)@.len() ==> old(v)@[k] != old(v)@[l],
    ensures
        forall|k: int, l: int| 0 <= k < l < final(v)@.len() ==> final(v)@[k] != final(v)@[l],
        forall|y: u32| final(v)@.contains(y) <==> old(v)@.contains(y) || y == id,
{
    match posicion_u32(v, id) {
        Some(_) => {
            proof {
                assert(old(v)@.contains(id));
            }
        },
        None => {
            v.push(id);
            proof {
                assert forall|y: u32| v@.contains(y) implies old(v)@.contains(y) || y == id by {
                    let k = choose|k: int| 0 <= k < v@.len() && v@[k] == y;
                    if k < old(v)@.len() {
                        assert(old(v)@[k] == y);
                    }
                }
                assert forall|y: u32| old(v)@.contains(y) || y == id implies v@.contains(y) by {
                    if old(v)@.contains(y) {
                        let k = choose|k: int| 0 <= k < old(v)@.len() && old(v)@[k] == y;
                        assert(v@[k] == y);
                    } else {
                        assert(v@[v@.len() - 1] == id);
                    }
                }
            }
        },
    }
}

/// Quita un id de un conjunto guardado como lista sin repetidos.
fn quitar_id(v: &mut Vec<u32>, id: u32)
    requires
        forall|k: int, l: int| 0 <= k < l < old(v)@.len() ==> old(v)@[k] != old(v)@[l],
    ensures
        forall|k: int, l: int| 0 <= k < l < final(v)@.len() ==> final(v)@[k] != final(v)@[l],
        forall|y: u32| final(v)@.contains(y) <==> old(v)@.contains(y) && y != id,
{
    match posicion_u32(v, id) {
        Some(i) => {
            v.remove(i);
            proof {
                old(v)@.remove_ensures(i as int);
                assert forall|y: u32| v@.contains(y) implies old(v)@.contains(y) && y != id by {
                    let k = choose|k: int| 0 <= k < v@.len() && v@[k] == y;
                    if k < i {
                        assert(old(v)@[k] == y);
                    } else {
                        assert(old(v)@[k + 1] == y);
                    }
                }
                assert forall|y: u32| old(v)@.contains(y) && y != id implies v@.contains(y) by {
                    let k = choose|k: int| 0 <= k < old(v)@.len() && old(v)@[k] == y;
                    if k < i {
                        assert(v@[k] == y);
                    } else {
                        assert(v@[k - 1] == y);
                    }
                }
            }
        },
        None => {},
    }
}

/// Posición de la cubeta de un tag, si la hay.
fn posicion_cubeta(ind: &Vec<CubetaTag>, tag: &String) -> (r: Option<usize>)
    ensures
        match r {
            Some(i) => 0 <= i < ind@.len() && ind@[i as int].tag@ == tag@,
            None => forall|i: int| 0 <= i < ind@.len() ==> ind@[i].tag@ != tag@,
        },
{
    let mut i: usize = 0;
    while i < ind.len()
        invariant
            0 <= i <= ind@.len(),
            forall|k: int| 0 <= k < i ==> ind@[k].tag@ != tag@,
        decreases ind.len() - i,
    {
        if ind[i].tag == *tag {
            return Some(i);
        }
        i += 1;
    }
    None
}

/// Apunta un id nuevo bajo un tag, creando la cubeta si hace falta.
#[verifier::spinoff_prover]
fn anota_tag(ind: &mut Vec<CubetaTag>, tag: &String, id: u32)
    requires
        cubetas_bien(old(ind)@),
        !en_cubetas(old(ind)@, tag@, id),
    ensures
        cubetas_bien(final(ind)@),
        forall|t: Seq<char>, x: u32|
            #[trigger] en_cubetas(final(ind)@, t, x) <==> en_cubetas(old(ind)@, t, x) || (x == id
                && t == tag@),
{
    match posicion_cubeta(ind, tag) {
        Some(i) => {
            let mut c = ind.remove(i);
            proof {
                if c.ids@.contains(id) {
                    assert(en_cubetas(old(ind)@, tag@, id));
                }
            }
            c.ids.push(id);
            let ghost c_nueva = c;
            ind.insert(i, c);
            proof {
                assert(ind@ =~= old(ind)@.update(i as int, c_nueva));
                assert forall|t: Seq<char>, x: u32| #[trigger]
                    en_cubetas(ind@, t, x) implies en_cubetas(old(ind)@, t, x) || (x == id && t
                    == tag@) by {
                    let b = choose|b: int|
                        0 <= b < ind@.len() && ind@[b].tag@ == t && ind@[b].ids@.contains(x);
                    if b != i {
                        assert(old(ind)@[b].tag@ == t && old(ind)@[b].ids@.contains(x));
                    } else {
                        let k = choose|k: int|
                            0 <= k < ind@[b].ids@.len() && ind@[b].ids@[k] == x;
                        if k < old(ind)@[i as int].ids@.len() {
                            assert(old(ind)@[i as int].ids@[k] == x);
                            assert(en_cubetas(old(ind)@, t, x));
                        } else {
                            assert(x == id && t == tag@);
                        }
                    }
                }
                assert forall|t: Seq<char>, x: u32|
                    en_cubetas(old(ind)@, t, x) || (x == id && t == tag@) implies #[trigger]
                    en_cubetas(ind@, t, x) by {
                    if en_cubetas(old(ind)@, t, x) {
                        let b = choose|b: int|
                            0 <= b < old(ind)@.len() && old(ind)@[b].tag@ == t
                                && old(ind)@[b].ids@.contains(x);
                        if b != i {
                            assert(ind@[b].tag@ == t && ind@[b].ids@.contains(x));
                        } else {
                            let k = choose|k: int|
                                0 <= k < old(ind)@[b].ids@.len() && old(ind)@[b].ids@[k] == x;
                            assert(ind@[i as int].ids@[k] == x);
                        }
                    } else {
                        assert(ind@[i as int].ids@[ind@[i as int].ids@.len() - 1] == id);
                        assert(ind@[i as int].ids@.contains(id));
                    }
                }
            }
        },
        None => {
            let mut ids: Vec<u32> = Vec::new();
            ids.push(id);
            ind.push(CubetaTag { tag: tag.clone(), ids });
            proof {
                let n = old(ind)@.len() as int;
                assert forall|t: Seq<char>, x: u32| #[trigger]
                    en_cubetas(ind@, t, x) implies en_cubetas(old(ind)@, t, x) || (x == id && t
                    == tag@) by {
                    let b = choose|b: int|
                        0 <= b < ind@.len() && ind@[b].tag@ == t && ind@[b].ids@.contains(x);
                    if b < n {
                        assert(old(ind)@[b].tag@ == t && old(ind)@[b].ids@.contains(x));
                    } else {
                        assert(ind@[b].ids@ =~= seq![id]);
                    }
                }
                assert forall|t: Seq<char>, x: u32|
                    en_cubetas(old(ind)@, t, x) || (x == id && t == tag@) implies #[trigger]
                    en_cubetas(ind@, t, x) by {
                    if en_cubetas(old(ind)@, t, x) {
                        let b = choose|b: int|
                            0 <= b < old(ind)@.len() && old(ind)@[b].tag@ == t
                                && old(ind)@[b].ids@.contains(x);
                        assert(ind@[b].tag@ == t && ind@[b].ids@.contains(x));
                    } else {
                        assert(ind@[n].tag@ == tag@);
                        assert(ind@[n].ids@[0] == id);
                        assert(ind@[n].ids@.contains(id));
                    }
                }
            }
        },
    }
}

/// Borra un id de la cubeta de un tag, podando la cubeta si queda vacía.
#[verifier::spinoff_prover]
fn quita_tag(ind: &mut Vec<CubetaTag>, tag: &String, id: u32)
    requires
        cubetas_bien(old(ind)@),
    ensures
        cubetas_bien(final(ind)@),
        forall|t: Seq<char>, x: u32|
            #[trigger] en_cubetas(final(ind)@, t, x) <==> en_cubetas(old(ind)@, t, x) && !(x == id
                && t == tag@),
{
    match posicion_cubeta(ind, tag) {
        Some(i) => {
            let mut c = ind.remove(i);
            let ghost sin_cubeta = ind@;
            match posicion_u32(&c.ids, id) {
                Some(k) => {
                    c.ids.remove(k);
                    let ghost ids_nuevos = c.ids@;
                    proof {
                        assert forall|y: u32| ids_nuevos.contains(y) implies old(
                            ind,
                        )@[i as int].ids@.contains(y) && y != id by {
                            let m = choose|m: int| 0 <= m < ids_nuevos.len() && ids_nuevos[m] == y;
                            if m < k {
                                assert(old(ind)@[i as int].ids@[m] == y);
                            } else {
                                assert(old(ind)@[i as int].ids@[m + 1] == y);
                            }
                        }
                        assert forall|y: u32|
                            old(ind)@[i as int].ids@.contains(y) && y != id implies ids_nuevos
                            .contains(y) by {
                            let m = choose|m: int|
                                0 <= m < old(ind)@[i as int].ids@.len() && old(
                                    ind,
                                )@[i as int].ids@[m] == y;
                            if m < k {
                                assert(ids_nuevos[m] == y);
                            } else {
                                assert(ids_nuevos[m - 1] == y);
                            }
                        }
                    }
                    if c.ids.len() > 0 {
                        let ghost c_nueva = c;
                        ind.insert(i, c);
                        proof {
                            assert(ind@ =~= old(ind)@.update(i as int, c_nueva));
                            lemma_quita_actualizada(old(ind)@, ind@, i as int, tag@, id);
                        }
                    } else {
                        proof {
                            assert(ind@ == old(ind)@.remove(i as int));
                            lemma_quita_podada(old(ind)@, ind@, i as int, tag@, id);
                        }
                    }
                },
                None => {
                    ind.insert(i, c);
                    proof {
                        assert(ind@ =~= old(ind)@);
                        assert forall|t: Seq<char>, x: u32| #[trigger]
                            en_cubetas(ind@, t, x) implies en_cubetas(old(ind)@, t, x) && !(x == id
                            && t == tag@) by {
                            if x == id && t == tag@ {
                                let b = choose|b: int|
                                    0 <= b < ind@.len() && ind@[b].tag@ == t
                                        && ind@[b].ids@.contains(x);
                                if b != i {
                                    assert(old(ind)@[b].tag@ == tag@);
                                    assert(false);
                                } else {
                                    assert(false);
                                }
                            }
                        }
                    }
                },
            }
        },
        None => {
            proof {
                assert forall|t: Seq<char>, x: u32| #[trigger]
                    en_cubetas(ind@, t, x) implies en_cubetas(old(ind)@, t, x) && !(x == id && t
                    == tag@) by {
                    if x == id && t == tag@ {
                        let b = choose|b: int|
                            0 <= b < ind@.len() && ind@[b].tag@ == t && ind@[b].ids@.contains(x);
                        assert(false);
                    }
                }
            }
        },
    }
}

/// Tras sustituir la cubeta `i` por ella misma sin `id`, la relación
/// del índice pierde exactamente el par `(tag, id)`.
proof fn lemma_quita_actualizada(
    antes: Seq<CubetaTag>,
    despues: Seq<CubetaTag>,
    i: int,
    tag: Seq<char>,
    id: u32,
)
    requires
        cubetas_bien(antes),
        0 <= i < antes.len(),
        antes[i].tag@ == tag,
        despues.len() == antes.len(),
        despues[i].tag@ == tag,
        forall|b: int| 0 <= b < antes.len() && b != i ==> despues[b] == antes[b],
        forall|y: u32| despues[i].ids@.contains(y) <==> antes[i].ids@.contains(y) && y != id,
        despues[i].ids@.len() > 0,
        forall|k: int, l: int|
            0 <= k < l < despues[i].ids@.len() ==> despues[i].ids@[k] != despues[i].ids@[l],
    ensures
        cubetas_bien(despues),
        forall|t: Seq<char>, x: u32|
            #[trigger] en_cubetas(despues, t, x) <==> en_cubetas(antes, t, x) && !(x == id && t
                == tag),
{
    assert forall|t: Seq<char>, x: u32| #[trigger]
        en_cubetas(despues, t, x) implies en_cubetas(antes, t, x) && !(x == id && t == tag) by {
        let b = choose|b: int|
            0 <= b < despues.len() && despues[b].tag@ == t && despues[b].ids@.contains(x);
        if b == i {
            assert(antes[i].ids@.contains(x) && x != id);
            assert(en_cubetas(antes, t, x));
        } else {
            assert(antes[b].tag@ == t && antes[b].ids@.contains(x));
            if x == id && t == tag {
                assert(antes[b].tag@ == antes[i].tag@);
                assert(false);
            }
        }
    }
    assert forall|t: Seq<char>, x: u32|
        en_cubetas(antes, t, x) && !(x == id && t == tag) implies #[trigger] en_cubetas(
        despues,
        t,
        x,
    ) by {
        let b = choose|b: int|
            0 <= b < antes.len() && antes[b].tag@ == t && antes[b].ids@.contains(x);
        if b == i {
            assert(t == tag);
            assert(despues[i].ids@.contains(x));
        } else {
            assert(despues[b].tag@ == t && despues[b].ids@.contains(x));
        }
    }
}

/// Tras podar la cubeta `i`, que solo contenía `id`, la relación del
/// índice pierde exactamente el par `(tag, id)`.
proof fn lemma_quita_podada(
    antes: Seq<CubetaTag>,
    despues: Seq<CubetaTag>,
    i: int,
    tag: Seq<char>,
    id: u32,
)
    requires
        cubetas_bien(antes),
        0 <= i < antes.len(),
        antes[i].tag@ == tag,
        despues == antes.remove(i),
        forall|y: u32| !(antes[i].ids@.contains(y) && y != id),
    ensures
        cubetas_bien(despues),
        forall|t: Seq<char>, x: u32|
            #[trigger] en_cubetas(despues, t, x) <==> en_cubetas(antes, t, x) && !(x == id && t
                == tag),
{
    antes.remove_ensures(i);
    assert forall|t: Seq<char>, x: u32| #[trigger]
        en_cubetas(despues, t, x) implies en_cubetas(antes, t, x) && !(x == id && t == tag) by {
        let b = choose|b: int|
            0 <= b < despues.len() && despues[b].tag@ == t && despues[b].ids@.contains(x);
        if b < i {
            assert(antes[b].tag@ == t && antes[b].ids@.contains(x));
            if x == id && t == tag {
                assert(antes[b].tag@ == antes[i].tag@);
                assert(false);
            }
        } else {
            assert(antes[b + 1].tag@ == t && antes[b + 1].ids@.contains(x));
            if x == id && t == tag {
                assert(antes[b + 1].tag@ == antes[i].tag@);
                assert(false);
            }
        }
    }
    assert forall|t: Seq<char>, x: u32|
        en_cubetas(antes, t, x) && !(x == id && t == tag) implies #[trigger] en_cubetas(
        despues,
        t,
        x,
    ) by {
        let b = choose|b: int|
            0 <= b < antes.len() && antes[b].tag@ == t && antes[b].ids@.contains(x);
        if b == i {
            assert(x == id && t == tag);
            assert(false);
        } else if b < i {
            assert(despues[b].tag@ == t && despues[b].ids@.contains(x));
        } else {
            assert(despues[b - 1].tag@ == t && despues[b - 1].ids@.contains(x));
        }
    }
}

/// Inserta una entrada en el ranking conservando el orden descendente.
fn ranking_insertar(rk: &mut Vec<EntradaPrecio>, e: EntradaPrecio)
    requires
        ordenado_desc(old(rk)@),
    ensures
        ordenado_desc(final(rk)@),
        exists|k: int| 0 <= k <= old(rk)@.len() && final(rk)@ == old(rk)@.insert(k, e),
        final(rk)@.len() == old(rk)@.len() + 1,
{
    let mut pos: usize = 0;
    while pos < rk.len() && rk[pos].precio >= e.precio
        invariant
            0 <= pos <= rk@.len(),
            rk@ == old(rk)@,
            forall|k: int| 0 <= k < pos ==> rk@[k].precio >= e.precio,
        decreases rk.len() - pos,
    {
        pos += 1;
    }
    rk.insert(pos, e);
    proof {
        assert(rk@ == old(rk)@.insert(pos as int, e));
        old(rk)@.insert_ensures(pos as int, e);
        assert forall|k: int, l: int| 0 <= k <= l < rk@.len() implies rk@[k].precio
            >= rk@[l].precio by {
            if pos < old(rk)@.len() {
                assert(old(rk)@[pos as int].precio < e.precio);
            }
            if k < pos {
                assert(rk@[k] == old(rk)@[k]);
            } else if k > pos {
                assert(rk@[k] == old(rk)@[k - 1]);
            }
            if l < pos {
                assert(rk@[l] == old(rk)@[l]);
            } else if l > pos {
                assert(rk@[l] == old(rk)@[l - 1]);
            }
        }
    }
}

/// Quita del ranking la entrada de un id, si la hay.
fn ranking_quitar(rk: &mut Vec<EntradaPrecio>, id: u32)
    requires
        ordenado_desc(old(rk)@),
        ranking_sin_repetidos(old(rk)@),
    ensures
        ordenado_desc(final(rk)@),
        ranking_sin_repetidos(final(rk)@),
        forall|k: int| 0 <= k < final(rk)@.len() ==> final(rk)@[k].id != id,
        (exists|k: int| 0 <= k < old(rk)@.len() && old(rk)@[k].id == id) ==> exists|k: int|
            0 <= k < old(rk)@.len() && old(rk)@[k].id == id && final(rk)@ == old(rk)@.remove(k),
        (forall|k: int| 0 <= k < old(rk)@.len() ==> old(rk)@[k].id != id) ==> final(rk)@ == old(
            rk,
        )@,
{
    let mut pos: usize = 0;
    while pos < rk.len()
        invariant
            0 <= pos <= rk@.len(),
            rk@ == old(rk)@,
            ordenado_desc(rk@),
            ranking_sin_repetidos(rk@),
            forall|k: int| 0 <= k < pos ==> rk@[k].id != id,
        decreases rk.len() - pos,
    {
        if rk[pos].id == id {
            rk.remove(pos);
            proof {
                let antes = old(rk)@;
                assert(rk@ == antes.remove(pos as int));
                antes.remove_ensures(pos as int);
                assert forall|k: int| 0 <= k < rk@.len() implies rk@[k].id != id by {
                    if k < pos {
                        assert(antes.remove(pos as int)[k] == antes[k]);
                    } else {
                        assert(antes.remove(pos as int)[k] == antes[k + 1]);
                    }
                }
                assert forall|k: int, l: int| 0 <= k <= l < rk@.len() implies rk@[k].precio
                    >= rk@[l].precio by {
                    if k < pos {
                        assert(antes.remove(pos as int)[k] == antes[k]);
                    } else {
                        assert(antes.remove(pos as int)[k] == antes[k + 1]);
                    }
                    if l < pos {
                        assert(antes.remove(pos as int)[l] == antes[l]);
                    } else {
                        assert(antes.remove(pos as int)[l] == antes[l + 1]);
                    }
                }
                assert forall|k: int, l: int| 0 <= k < l < rk@.len() implies rk@[k].id
                    != rk@[l].id by {
                    if k < pos {
                        assert(antes.remove(pos as int)[k] == antes[k]);
                    } else {
                        assert(antes.remove(pos as int)[k] == antes[k + 1]);
                    }
                    if l < pos {
                        assert(antes.remove(pos as int)[l] == antes[l]);
                    } else {
                        assert(antes.remove(pos as int)[l] == antes[l + 1]);
                    }
                }
            }
            return ;
        }
        pos += 1;
    }
}

/// Posición del registro con ese id, si lo hay.
fn posicion_por_id(v: &Vec<Producto>, id: u32) -> (r: Option<usize>)
    ensures
        match r {
            Some(i) => 0 <= i < v@.len() && v@[i as int].id == id,
            None => forall|i: int| 0 <= i < v@.len() ==> v@[i].id != id,
        },
{
    let mut i: usize = 0;
    while i < v.len()
        invariant
            0 <= i <= v@.len(),
            forall|k: int| 0 <= k < i ==> v@[k].id != id,
        decreases v.len() - i,
    {
        if v[i].id == id {
            return Some(i);
        }
        i += 1;
    }
    None
}


/// Tras empujar al mapa primario un registro de id nuevo, el modelo
/// gana exactamente esa entrada y las demás no cambian.
#[verifier::spinoff_prover]
proof fn lemma_tras_empujar(antes: InventarioManager, despues: InventarioManager, p: Producto)
    requires
        antes.ids_unicos(),
        !antes.vive(p.id),
        despues.lista() == antes.lista().push(p),
    ensures
        despues.ids_unicos(),
        despues.vive(p.id),
        despues.indice_de(p.id) == antes.lista().len(),
        despues.registro(p.id) == p@,
        forall|x: u32| #[trigger] despues.vive(x) <==> antes.vive(x) || x == p.id,
        forall|x: u32|
            antes.vive(x) ==> despues.indice_de(x) == antes.indice_de(x) && #[trigger]
                despues.registro(x) == antes.registro(x),
        despues.registros() == antes.registros().insert(p.id, p@),
{
    let n = antes.lista().len() as int;
    assert(despues.lista()[n] == p);
    assert forall|i: int| 0 <= i < n implies despues.lista()[i] == antes.lista()[i] by {}
    assert forall|i: int, j: int|
        0 <= i < j < despues.lista().len() implies despues.lista()[i].id
        != despues.lista()[j].id by {
        if j < n {
        } else {
            if antes.vive(despues.lista()[i].id) {
            }
            assert(despues.lista()[i] == antes.lista()[i]);
            assert(antes.vive(antes.lista()[i].id));
        }
    }
    assert(despues.vive(p.id));
    let jp = despues.indice_de(p.id);
    assert(0 <= jp < despues.lista().len() && despues.lista()[jp].id == p.id);
    if jp != n {
        assert(despues.lista()[jp] == antes.lista()[jp]);
        assert(antes.vive(p.id));
    }
    assert(despues.indice_de(p.id) == n);
    assert forall|x: u32| #[trigger] despues.vive(x) implies antes.vive(x) || x == p.id by {
        let i = choose|i: int| 0 <= i < despues.lista().len() && despues.lista()[i].id == x;
        if i < n {
            assert(antes.lista()[i].id == x);
        }
    }
    assert forall|x: u32| antes.vive(x) || x == p.id implies #[trigger] despues.vive(x) by {
        if antes.vive(x) {
            let i = choose|i: int| 0 <= i < antes.lista().len() && antes.lista()[i].id == x;
            assert(despues.lista()[i].id == x);
        } else {
            assert(despues.lista()[n].id == x);
        }
    }
    assert forall|x: u32| antes.vive(x) implies despues.indice_de(x) == antes.indice_de(x)
        && #[trigger] despues.registro(x) == antes.registro(x) by {
        let i = antes.indice_de(x);
        assert(0 <= i < antes.lista().len() && antes.lista()[i].id == x);
        assert(despues.lista()[i].id == x);
        assert(despues.vive(x));
        let j = despues.indice_de(x);
        assert(0 <= j < despues.lista().len() && despues.lista()[j].id == x);
        if j == n {
            assert(x == p.id);
            assert(false);
        }
        if j != i {
            assert(despues.lista()[i].id == despues.lista()[j].id);
            assert(false);
        }
    }
    assert(despues.registros() =~= antes.registros().insert(p.id, p@));
}

impl InventarioManager {
    /// Inserta un registro ya formado cuyo id no está en uso,
    /// actualizando el mapa primario y las tres vistas derivadas, y
    /// avanzando el contador hasta dejarlo por encima del id.
    #[verifier::loop_isolation(false)]
    #[verifier::rlimit(60)]
    #[verifier::spinoff_prover]
    fn insertar_directo(&mut self, p: Producto)
        requires
            old(self).wf(),
            p.wf(),
            !old(self).vive(p.id),
            p.id < u32::MAX,
        ensures
            final(self).wf(),
            final(self).lista() == old(self).lista().push(p),
            final(self).registros() == old(self).registros().insert(p.id, p@),
            final(self).siguiente() == if old(self).siguiente() > p.id + 1 {
                old(self).siguiente()
            } else {
                (p.id + 1) as u32
            },
    {
        let ghost antes = *self;
        if self.siguiente_id <= p.id {
            self.siguiente_id = p.id + 1;
        }
        let id = p.id;
        let precio = p.precio;
        let stock = p.stock;
        proof {
            assert forall|t: Seq<char>| !en_cubetas(antes.productos_por_tag@, t, id) by {
                if en_cubetas(antes.productos_por_tag@, t, id) {
                    assert(antes.en_indice_tags(t, id));
                    assert(antes.vive(id));
                }
            }
        }
        let mut t: usize = 0;
        while t < p.tags.len()
            invariant
                0 <= t <= p.tags@.len(),
                cubetas_bien(self.productos_por_tag@),
                forall|tg: Seq<char>, x: u32|
                    #[trigger] en_cubetas(self.productos_por_tag@, tg, x) <==> en_cubetas(
                        antes.productos_por_tag@,
                        tg,
                        x,
                    ) || (x == id && exists|k: int| 0 <= k < t && p.tags@[k]@ == tg),
                self.productos_por_id == antes.productos_por_id,
                self.productos_por_precio == antes.productos_por_precio,
                self.productos_bajo_stock == antes.productos_bajo_stock,
                self.siguiente_id == if antes.siguiente_id > p.id + 1 {
                    antes.siguiente_id
                } else {
                    (p.id + 1) as u32
                },
            decreases p.tags.len() - t,
        {
            proof {
                if en_cubetas(self.productos_por_tag@, p.tags@[t as int]@, id) {
                    assert(!en_cubetas(antes.productos_por_tag@, p.tags@[t as int]@, id));
                    let k = choose|k: int| 0 <= k < t && p.tags@[k]@ == p.tags@[t as int]@;
                    assert(p.tags@[k]@ != p.tags@[t as int]@);
                    assert(false);
                }
            }
            anota_tag(&mut self.productos_por_tag, &p.tags[t], id);
            t += 1;
            proof {
                assert forall|tg: Seq<char>, x: u32| #[trigger]
                    en_cubetas(self.productos_por_tag@, tg, x) implies en_cubetas(
                    antes.productos_por_tag@,
                    tg,
                    x,
                ) || (x == id && exists|k: int| 0 <= k < t && p.tags@[k]@ == tg) by {
                    if x == id && tg == p.tags@[t - 1]@ {
                        assert(p.tags@[t - 1]@ == tg);
                    }
                }
            }
        }
        let ghost ind_final = self.productos_por_tag@;
        proof {
            assert forall|tg: Seq<char>, x: u32| #[trigger]
                en_cubetas(ind_final, tg, x) <==> en_cubetas(antes.productos_por_tag@, tg, x) || (
                x == id && conjunto_tags(p.tags@).contains(tg)) by {
                if en_cubetas(ind_final, tg, x) {
                    if !en_cubetas(antes.productos_por_tag@, tg, x) {
                        let k = choose|k: int| 0 <= k < p.tags@.len() && p.tags@[k]@ == tg;
                        assert(conjunto_tags(p.tags@).contains(tg));
                    }
                }
                if x == id && conjunto_tags(p.tags@).contains(tg) {
                    let k = choose|k: int| 0 <= k < p.tags@.len() && p.tags@[k]@ == tg;
                    assert(en_cubetas(ind_final, tg, x));
                }
            }
        }
        ranking_insertar(
            &mut self.productos_por_precio,
            EntradaPrecio { precio, id },
        );
        if stock < UMBRAL_BAJO_STOCK {
            poner_id(&mut self.productos_bajo_stock, id);
        }
        let ghost p_g = p;
        self.productos_por_id.push(p);
        proof {
            let desp = *self;
            assert(desp.productos_por_tag@ == ind_final);
            assert forall|y: u32| #[trigger]
                desp.productos_bajo_stock@.contains(y) <==> antes.productos_bajo_stock@.contains(
                y,
            ) || (p_g.stock < UMBRAL_BAJO_STOCK && y == id) by {}
            lemma_insertar_wf(antes, desp, p_g);
        }
    }

    /// Crea un registro con el siguiente id
    /// Crea un registro con el siguiente id, lo inserta en las cuatro
    /// vistas y devuelve el id emitido. Siempre tiene éxito; los tags
    /// repetidos se funden en un conjunto.
    #[verifier::loop_isolation(false)]
    #[verifier::rlimit(60)]
    #[verifier::spinoff_prover]
    pub fn agregar_producto(
        &mut self,
        nombre: String,
        precio: u32,
        stock: u32,
        tags: Vec<String>,
    ) -> (id: u32)
        requires
            old(self).wf(),
            old(self).siguiente() < u32::MAX,
        ensures
            final(self).wf(),
            id == old(self).siguiente(),
            !old(self).registros().dom().contains(id),
            final(self).registros() == old(self).registros().insert(
                id,
                VistaProducto {
                    id,
                    nombre: nombre@,
                    precio,
                    stock,
                    tags: conjunto_tags(tags@),
                },
            ),
            final(self).siguiente() == id + 1,
            final(self).lista().len() == old(self).lista().len() + 1,
    {
        let mut tags_unicas: Vec<String> = Vec::new();
        let mut i: usize = 0;
        while i < tags.len()
            invariant
                0 <= i <= tags@.len(),
                forall|k: int, l: int|
                    0 <= k < l < tags_unicas@.len() ==> tags_unicas@[k]@ != tags_unicas@[l]@,
                forall|k: int| #![trigger tags_unicas@[k]]
                    0 <= k < tags_unicas@.len() ==> exists|m: int|
                        0 <= m < i && tags@[m]@ == tags_unicas@[k]@,
                forall|m: int| #![trigger tags@[m]]
                    0 <= m < i ==> exists|k: int|
                        0 <= k < tags_unicas@.len() && tags_unicas@[k]@ == tags@[m]@,
            decreases tags.len() - i,
        {
            let presente = crate::formato::contiene_texto(&tags_unicas, &tags[i]);
            let ghost unicas_pre = tags_unicas@;
            if !presente {
                tags_unicas.push(tags[i].clone());
            }
            proof {
                assert forall|m: int| #![trigger tags@[m]] 0 <= m < i + 1 implies exists|k: int|
                    0 <= k < tags_unicas@.len() && tags_unicas@[k]@ == tags@[m]@ by {
                    if m < i {
                        let k0 = choose|k0: int|
                            0 <= k0 < unicas_pre.len() && unicas_pre[k0]@ == tags@[m]@;
                        assert(tags_unicas@[k0]@ == tags@[m]@);
                    } else if presente {
                        let k1 = choose|k1: int|
                            0 <= k1 < unicas_pre.len() && unicas_pre[k1]@ == tags@[i as int]@;
                        assert(tags_unicas@[k1]@ == tags@[m]@);
                    } else {
                        assert(tags_unicas@[tags_unicas@.len() - 1]@ == tags@[m]@);
                    }
                }
            }
            i += 1;
        }
        proof {
            assert forall|t: Seq<char>| #[trigger] conjunto_tags(tags_unicas@).contains(
                t,
            ) implies conjunto_tags(tags@).contains(t) by {
                let k = choose|k: int|
                    0 <= k < tags_unicas@.len() && tags_unicas@[k]@ == t;
                let m = choose|m: int| 0 <= m < tags@.len() && tags@[m]@ == tags_unicas@[k]@;
            }
            assert forall|t: Seq<char>| #[trigger] conjunto_tags(tags@).contains(
                t,
            ) implies conjunto_tags(tags_unicas@).contains(t) by {
                let m = choose|m: int| 0 <= m < tags@.len() && tags@[m]@ == t;
                let k = choose|k: int|
                    0 <= k < tags_unicas@.len() && tags_unicas@[k]@ == tags@[m]@;
            }
            assert(conjunto_tags(tags_unicas@) =~= conjunto_tags(tags@));
        }
        let id = self.siguiente_id;
        let p = Producto { id, nombre, precio, stock, tags: tags_unicas };
        proof {
            assert forall|j: int|
                0 <= j < self.lista().len() implies self.lista()[j].id != id by {}
            if self.vive(id) {
                let j = choose|j: int|
                    0 <= j < self.lista().len() && self.lista()[j].id == id;
                assert(false);
            }
        }
        self.insertar_directo(p);
        proof {
            assert(final(self).registros() =~= old(self).registros().insert(
                id,
                VistaProducto {
                    id,
                    nombre: nombre@,
                    precio,
                    stock,
                    tags: conjunto_tags(tags@),
                },
            ));
        }
        id
    }
}


impl InventarioManager {
    /// Todos los registros vivos que llevan el tag, resueltos por el
    /// mapa primario; el orden no está especificado.
    #[verifier::loop_isolation(false)]
    #[verifier::spinoff_prover]
    pub fn buscar_por_tag(&self, tag: &str) -> (r: Vec<Producto>)
        requires
            self.wf(),
        ensures
            forall|k: int, l: int| 0 <= k < l < r@.len() ==> r@[k].id != r@[l].id,
            forall|k: int|
                0 <= k < r@.len() ==> self.registros().dom().contains((#[trigger] r@[k]).id)
                    && r@[k]@ == self.registros()[r@[k].id] && r@[k]@.tags.contains(tag@)
                    && r@[k].wf(),
            forall|x: u32|
                self.ids_con_tag(tag@).contains(x) ==> exists|k: int|
                    0 <= k < r@.len() && r@[k].id == x,
            forall|k: int| 0 <= k < r@.len() ==> self.ids_con_tag(tag@).contains(r@[k].id),
    {
        let tag_texto = tag.to_owned();
        let mut r: Vec<Producto> = Vec::new();
        match posicion_cubeta(&self.productos_por_tag, &tag_texto) {
            None => {
                proof {
                    assert forall|x: u32| !self.ids_con_tag(tag@).contains(x) by {
                        if self.en_indice_tags(tag@, x) {
                            let b = choose|b: int|
                                0 <= b < self.productos_por_tag@.len()
                                    && self.productos_por_tag@[b].tag@ == tag@
                                    && self.productos_por_tag@[b].ids@.contains(x);
                            assert(false);
                        }
                    }
                }
            },
            Some(b) => {
                let ghost ids = self.productos_por_tag@[b as int].ids@;
                proof {
                    assert forall|x: u32| ids.contains(x) implies self.en_indice_tags(
                        tag@,
                        x,
                    ) by {}
                }
                let mut k: usize = 0;
                while k < self.productos_por_tag[b].ids.len()
                    invariant
                        0 <= k <= ids.len(),
                        self.productos_por_tag@[b as int].ids@ == ids,
                        0 <= b < self.productos_por_tag@.len(),
                        self.productos_por_tag@[b as int].tag@ == tag@,
                        r@.len() == k,
                        forall|m: int|
                            0 <= m < k ==> (#[trigger] r@[m]).id == ids[m] && r@[m]@
                                == self.registro(ids[m]) && r@[m].wf(),
                    decreases ids.len() - k,
                {
                    let id_k = self.productos_por_tag[b].ids[k];
                    proof {
                        assert(ids.contains(id_k));
                        assert(self.vive(id_k));
                    }
                    match posicion_por_id(&self.productos_por_id, id_k) {
                        Some(j) => {
                            proof {
                                self.lemma_registro_en(j as int);
                            }
                            r.push(self.productos_por_id[j].clone());
                        },
                        None => {
                            proof {
                                let i0 = choose|i0: int|
                                    0 <= i0 < self.lista().len() && self.lista()[i0].id == id_k;
                                assert(false);
                            }
                        },
                    }
                    k += 1;
                }
                proof {
                    assert forall|x: u32| self.ids_con_tag(tag@).contains(x) implies exists|m: int|
                        0 <= m < r@.len() && r@[m].id == x by {
                        let b2 = choose|b2: int|
                            0 <= b2 < self.productos_por_tag@.len()
                                && self.productos_por_tag@[b2].tag@ == tag@
                                && self.productos_por_tag@[b2].ids@.contains(x);
                        assert(b2 == b);
                        let m = choose|m: int| 0 <= m < ids.len() && ids[m] == x;
                        assert(r@[m].id == x);
                    }
                    assert forall|k2: int, l: int| 0 <= k2 < l < r@.len() implies r@[k2].id
                        != r@[l].id by {
                        assert(r@[k2].id == ids[k2] && r@[l].id == ids[l]);
                    }
                    assert forall|m: int|
                        0 <= m < r@.len() implies self.registros().dom().contains(
                        (#[trigger] r@[m]).id,
                    ) && r@[m]@ == self.registros()[r@[m].id] && r@[m]@.tags.contains(tag@) by {
                        assert(ids.contains(ids[m]));
                        assert(self.en_indice_tags(tag@, ids[m]));
                    }
                }
            },
        }
        r
    }

    /// Todos los registros vivos con stock bajo el umbral.
    #[verifier::loop_isolation(false)]
    #[verifier::spinoff_prover]
    pub fn productos_con_bajo_stock(&self) -> (r: Vec<Producto>)
        requires
            self.wf(),
        ensures
            forall|k: int, l: int| 0 <= k < l < r@.len() ==> r@[k].id != r@[l].id,
            forall|k: int|
                0 <= k < r@.len() ==> self.registros().dom().contains((#[trigger] r@[k]).id)
                    && r@[k]@ == self.registros()[r@[k].id] && r@[k].stock < UMBRAL_BAJO_STOCK
                    && r@[k].wf(),
            forall|x: u32|
                self.ids_bajo_stock().contains(x) ==> exists|k: int|
                    0 <= k < r@.len() && r@[k].id == x,
            forall|k: int| 0 <= k < r@.len() ==> self.ids_bajo_stock().contains(r@[k].id),
    {
        let ghost bs = self.productos_bajo_stock@;
        let mut r: Vec<Producto> = Vec::new();
        let mut k: usize = 0;
        while k < self.productos_bajo_stock.len()
            invariant
                0 <= k <= bs.len(),
                self.productos_bajo_stock@ == bs,
                r@.len() == k,
                forall|m: int|
                    0 <= m < k ==> (#[trigger] r@[m]).id == bs[m] && r@[m]@ == self.registro(bs[m])
                        && r@[m].wf(),
            decreases bs.len() - k,
        {
            let id_k = self.productos_bajo_stock[k];
            proof {
                assert(self.vive(id_k));
            }
            match posicion_por_id(&self.productos_por_id, id_k) {
                Some(j) => {
                    proof {
                        self.lemma_registro_en(j as int);
                    }
                    r.push(self.productos_por_id[j].clone());
                },
                None => {
                    proof {
                        let i0 = choose|i0: int|
                            0 <= i0 < self.lista().len() && self.lista()[i0].id == id_k;
                        assert(false);
                    }
                },
            }
            k += 1;
        }
        proof {
            assert forall|x: u32| self.ids_bajo_stock().contains(x) implies exists|m: int|
                0 <= m < r@.len() && r@[m].id == x by {
                let m = choose|m: int| 0 <= m < bs.len() && bs[m] == x;
                assert(r@[m].id == x);
            }
            assert forall|m: int| 0 <= m < r@.len() implies self.ids_bajo_stock().contains(
                (#[trigger] r@[m]).id,
            ) && self.registros().dom().contains(r@[m].id) && r@[m]@ == self.registros()[r@[m].id]
                && r@[m].stock < UMBRAL_BAJO_STOCK by {
                assert(bs.contains(bs[m]));
            }
        }
        r
    }

    /// Los `n` registros vivos más caros, de mayor a menor precio,
    /// resueltos por el mapa primario. Si `n` alcanza el tamaño del
    /// catálogo, salen todos los vivos, sin repetir ninguno.
    #[verifier::loop_isolation(false)]
    #[verifier::spinoff_prover]
    pub fn productos_mas_caros(&self, n: usize) -> (r: Vec<Producto>)
        requires
            self.wf(),
        ensures
            r@.len() == if n <= self.lista().len() {
                n as int
            } else {
                self.lista().len() as int
            },
            forall|k: int, l: int| 0 <= k <= l < r@.len() ==> r@[k].precio >= r@[l].precio,
            forall|k: int, l: int| 0 <= k < l < r@.len() ==> r@[k].id != r@[l].id,
            forall|k: int|
                0 <= k < r@.len() ==> self.registros().dom().contains((#[trigger] r@[k]).id)
                    && r@[k]@ == self.registros()[r@[k].id] && r@[k].wf(),
            n >= self.lista().len() ==> forall|x: u32|
                self.registros().dom().contains(x) ==> exists|k: int|
                    0 <= k < r@.len() && r@[k].id == x,
            forall|x: u32|
                #[trigger] self.registros().dom().contains(x) && r@.len() > 0 && (forall|k: int|
                    0 <= k < r@.len() ==> (#[trigger] r@[k]).id != x)
                    ==> self.registros()[x].precio <= r@[r@.len() - 1].precio,
    {
        let ghost rk = self.productos_por_precio@;
        let mut r: Vec<Producto> = Vec::new();
        let mut i: usize = 0;
        while i < self.productos_por_precio.len() && r.len() < n
            invariant
                0 <= i <= rk.len(),
                self.productos_por_precio@ == rk,
                r@.len() == i,
                i <= n,
                forall|m: int|
                    0 <= m < i ==> (#[trigger] r@[m]).id == rk[m].id && r@[m].precio == rk[m].precio
                        && r@[m]@ == self.registro(rk[m].id) && r@[m].wf(),
            decreases rk.len() - i,
        {
            let entrada = self.productos_por_precio[i];
            proof {
                assert(self.vive(entrada.id));
            }
            match posicion_por_id(&self.productos_por_id, entrada.id) {
                Some(j) => {
                    proof {
                        self.lemma_registro_en(j as int);
                    }
                    r.push(self.productos_por_id[j].clone());
                },
                None => {
                    proof {
                        let i0 = choose|i0: int|
                            0 <= i0 < self.lista().len() && self.lista()[i0].id == entrada.id;
                        assert(false);
                    }
                },
            }
            i += 1;
        }
        proof {
            assert(rk.len() == self.lista().len());
            if n >= self.lista().len() {
                assert(r@.len() == rk.len());
                assert forall|x: u32| self.registros().dom().contains(x) implies exists|k: int|
                    0 <= k < r@.len() && r@[k].id == x by {
                    let i0 = choose|i0: int|
                        0 <= i0 < self.lista().len() && self.lista()[i0].id == x;
                    assert(tiene_id(self.productos_por_precio@, self.lista()[i0].id));
                    let k0 = choose|k0: int|
                        0 <= k0 < self.productos_por_precio@.len()
                            && self.productos_por_precio@[k0].id == self.lista()[i0].id;
                    assert(r@[k0].id == x);
                }
            }
            assert forall|x: u32|
                self.registros().dom().contains(x) && r@.len() > 0 && (forall|k: int|
                    0 <= k < r@.len() ==> (#[trigger] r@[k]).id != x)
                implies self.registros()[x].precio <= r@[r@.len() - 1].precio by {
                let i0 = choose|i0: int|
                    0 <= i0 < self.lista().len() && self.lista()[i0].id == x;
                assert(tiene_id(self.productos_por_precio@, self.lista()[i0].id));
                let kx = choose|kx: int|
                    0 <= kx < self.productos_por_precio@.len()
                        && self.productos_por_precio@[kx].id == self.lista()[i0].id;
                assert(rk[kx].id == x);
                if kx < r@.len() {
                    assert(r@[kx].id == x);
                    assert(false);
                }
                assert(rk[r@.len() - 1].precio >= rk[kx].precio);
                assert(r@[r@.len() - 1].precio == rk[r@.len() - 1].precio);
                assert(self.registro(x).precio == rk[kx].precio);
            }
        }
        r
    }

    /// Los `n` registros vivos más baratos, de menor a mayor precio.
    /// Se sirve del mismo ranking que `productos_mas_caros`, leído del
    /// otro extremo: el ranking nunca guarda entradas caducas, así que
    /// una sola estrategia vale para los dos sentidos.
    #[verifier::loop_isolation(false)]
    #[verifier::spinoff_prover]
    pub fn productos_mas_baratos(&self, n: usize) -> (r: Vec<Producto>)
        requires
            self.wf(),
        ensures
            r@.len() == if n <= self.lista().len() {
                n as int
            } else {
                self.lista().len() as int
            },
            forall|k: int, l: int| 0 <= k <= l < r@.len() ==> r@[k].precio <= r@[l].precio,
            forall|k: int, l: int| 0 <= k < l < r@.len() ==> r@[k].id != r@[l].id,
            forall|k: int|
                0 <= k < r@.len() ==> self.registros().dom().contains((#[trigger] r@[k]).id)
                    && r@[k]@ == self.registros()[r@[k].id] && r@[k].wf(),
            n >= self.lista().len() ==> forall|x: u32|
                self.registros().dom().contains(x) ==> exists|k: int|
                    0 <= k < r@.len() && r@[k].id == x,
            forall|x: u32|
                #[trigger] self.registros().dom().contains(x) && r@.len() > 0 && (forall|k: int|
                    0 <= k < r@.len() ==> (#[trigger] r@[k]).id != x)
                    ==> self.registros()[x].precio >= r@[r@.len() - 1].precio,
    {
        let ghost rk = self.productos_por_precio@;
        let mut r: Vec<Producto> = Vec::new();
        let mut i: usize = self.productos_por_precio.len();
        while i > 0 && r.len() < n
            invariant
                0 <= i <= rk.len(),
                self.productos_por_precio@ == rk,
                r@.len() == rk.len() - i,
                rk.len() - i <= n,
                forall|m: int|
                    0 <= m < r@.len() ==> (#[trigger] r@[m]).id == rk[rk.len() - 1 - m].id
                        && r@[m].precio == rk[rk.len() - 1 - m].precio && r@[m]@ == self.registro(
                        rk[rk.len() - 1 - m].id,
                    ) && r@[m].wf(),
            decreases i,
        {
            i -= 1;
            let entrada = self.productos_por_precio[i];
            proof {
                assert(self.vive(entrada.id));
            }
            match posicion_por_id(&self.productos_por_id, entrada.id) {
                Some(j) => {
                    proof {
                        self.lemma_registro_en(j as int);
                    }
                    r.push(self.productos_por_id[j].clone());
                },
                None => {
                    proof {
                        let i0 = choose|i0: int|
                            0 <= i0 < self.lista().len() && self.lista()[i0].id == entrada.id;
                        assert(false);
                    }
                },
            }
        }
        proof {
            assert(rk.len() == self.lista().len());
            if n >= self.lista().len() {
                assert(r@.len() == rk.len());
                assert forall|x: u32| self.registros().dom().contains(x) implies exists|k: int|
                    0 <= k < r@.len() && r@[k].id == x by {
                    let i0 = choose|i0: int|
                        0 <= i0 < self.lista().len() && self.lista()[i0].id == x;
                    assert(tiene_id(self.productos_por_precio@, self.lista()[i0].id));
                    let k0 = choose|k0: int|
                        0 <= k0 < self.productos_por_precio@.len()
                            && self.productos_por_precio@[k0].id == self.lista()[i0].id;
                    assert(r@[rk.len() - 1 - k0].id == x);
                }
            }
            assert forall|x: u32|
                self.registros().dom().contains(x) && r@.len() > 0 && (forall|k: int|
                    0 <= k < r@.len() ==> (#[trigger] r@[k]).id != x)
                implies self.registros()[x].precio >= r@[r@.len() - 1].precio by {
                let i0 = choose|i0: int|
                    0 <= i0 < self.lista().len() && self.lista()[i0].id == x;
                assert(tiene_id(self.productos_por_precio@, self.lista()[i0].id));
                let kx = choose|kx: int|
                    0 <= kx < self.productos_por_precio@.len()
                        && self.productos_por_precio@[kx].id == self.lista()[i0].id;
                assert(rk[kx].id == x);
                if kx >= rk.len() - r@.len() {
                    assert(r@[rk.len() - 1 - kx].id == x);
                    assert(false);
                }
                assert(rk[kx].precio >= rk[rk.len() - r@.len()].precio);
                assert(r@[r@.len() - 1].precio == rk[rk.len() - r@.len()].precio);
                assert(self.registro(x).precio == rk[kx].precio);
            }
        }
        r
    }
}


/// Tras sustituir en el mapa primario el registro de la posición `j`
/// por otro con el mismo id, el modelo cambia solo en esa entrada.
#[verifier::spinoff_prover]
proof fn lemma_tras_actualizar(antes: InventarioManager, despues: InventarioManager, j: int, p: Producto)
    requires
        antes.ids_unicos(),
        0 <= j < antes.lista().len(),
        despues.lista() == antes.lista().update(j, p),
        p.id == antes.lista()[j].id,
    ensures
        despues.ids_unicos(),
        forall|x: u32| #[trigger] despues.vive(x) <==> antes.vive(x),
        despues.vive(p.id),
        despues.indice_de(p.id) == j,
        despues.registro(p.id) == p@,
        forall|x: u32|
            antes.vive(x) && x != p.id ==> #[trigger] despues.registro(x) == antes.registro(x),
        despues.registros() == antes.registros().insert(p.id, p@),
{
    assert forall|x: u32| #[trigger] despues.vive(x) implies antes.vive(x) by {
        let i = choose|i: int| 0 <= i < despues.lista().len() && despues.lista()[i].id == x;
        assert(antes.lista()[i].id == x);
    }
    assert forall|x: u32| antes.vive(x) implies #[trigger] despues.vive(x) by {
        let i = choose|i: int| 0 <= i < antes.lista().len() && antes.lista()[i].id == x;
        assert(despues.lista()[i].id == x);
    }
    assert forall|i: int, k: int|
        0 <= i < k < despues.lista().len() implies despues.lista()[i].id
        != despues.lista()[k].id by {
        assert(despues.lista()[i].id == antes.lista()[i].id);
        assert(despues.lista()[k].id == antes.lista()[k].id);
    }
    assert(despues.vive(p.id));
    let jd = despues.indice_de(p.id);
    assert(0 <= jd < despues.lista().len() && despues.lista()[jd].id == p.id);
    if jd != j {
        assert(antes.lista()[jd].id == antes.lista()[j].id);
        assert(false);
    }
    assert forall|x: u32| antes.vive(x) && x != p.id implies #[trigger] despues.registro(x)
        == antes.registro(x) by {
        let i = antes.indice_de(x);
        assert(0 <= i < antes.lista().len() && antes.lista()[i].id == x);
        assert(despues.lista()[i].id == x);
        let i2 = despues.indice_de(x);
        assert(0 <= i2 < despues.lista().len() && despues.lista()[i2].id == x);
        if i2 != i {
            assert(antes.lista()[i2].id == antes.lista()[i].id);
            assert(false);
        }
        assert(i != j);
        assert(despues.registro(x) == despues.lista()[i]@);
        assert(despues.lista()[i] == antes.lista()[i]);
        assert(antes.registro(x) == antes.lista()[i]@);
    }
    assert(despues.registros() =~= antes.registros().insert(p.id, p@));
}

/// Tras quitar del mapa primario el registro de la posición `j`, el
/// modelo pierde exactamente esa entrada.
#[verifier::spinoff_prover]
proof fn lemma_tras_quitar(antes: InventarioManager, despues: InventarioManager, j: int)
    requires
        antes.ids_unicos(),
        0 <= j < antes.lista().len(),
        despues.lista() == antes.lista().remove(j),
    ensures
        despues.ids_unicos(),
        forall|x: u32|
            #[trigger] despues.vive(x) <==> antes.vive(x) && x != antes.lista()[j].id,
        forall|x: u32|
            despues.vive(x) ==> #[trigger] despues.registro(x) == antes.registro(x),
        despues.registros() == antes.registros().remove(antes.lista()[j].id),
{
    let id = antes.lista()[j].id;
    antes.lista().remove_ensures(j);
    assert forall|x: u32| #[trigger] despues.vive(x) implies antes.vive(x) && x != id by {
        let i = choose|i: int| 0 <= i < despues.lista().len() && despues.lista()[i].id == x;
        if i < j {
            assert(antes.lista()[i].id == x);
        } else {
            assert(antes.lista()[i + 1].id == x);
        }
    }
    assert forall|x: u32| antes.vive(x) && x != id implies #[trigger] despues.vive(x) by {
        let i = choose|i: int| 0 <= i < antes.lista().len() && antes.lista()[i].id == x;
        assert(i != j);
        if i < j {
            assert(despues.lista()[i].id == x);
        } else {
            assert(despues.lista()[i - 1].id == x);
        }
    }
    assert forall|i: int, k: int|
        0 <= i < k < despues.lista().len() implies despues.lista()[i].id
        != despues.lista()[k].id by {
        if i < j {
            assert(despues.lista()[i] == antes.lista()[i]);
        } else {
            assert(despues.lista()[i] == antes.lista()[i + 1]);
        }
        if k < j {
            assert(despues.lista()[k] == antes.lista()[k]);
        } else {
            assert(despues.lista()[k] == antes.lista()[k + 1]);
        }
    }
    assert forall|x: u32| despues.vive(x) implies #[trigger] despues.registro(x)
        == antes.registro(x) by {
        let i2 = despues.indice_de(x);
        assert(0 <= i2 < despues.lista().len() && despues.lista()[i2].id == x);
        let i = antes.indice_de(x);
        assert(antes.vive(x));
        assert(0 <= i < antes.lista().len() && antes.lista()[i].id == x);
        if i2 < j {
            assert(despues.lista()[i2] == antes.lista()[i2]);
            if i != i2 {
                assert(antes.lista()[i].id == antes.lista()[i2].id);
                assert(false);
            }
        } else {
            assert(despues.lista()[i2] == antes.lista()[i2 + 1]);
            if i != i2 + 1 {
                assert(antes.lista()[i].id == antes.lista()[i2 + 1].id);
                assert(false);
            }
        }
    }
    assert(despues.registros() =~= antes.registros().remove(id));
}

impl InventarioManager {
    /// Reparación del ranking para un id: quita su entrada si la hay
    /// y, si el registro sigue vivo, reinserta una fresca con su
    /// precio actual. Las entradas de los demás ids no cambian.
    #[verifier::rlimit(60)]
    #[verifier::spinoff_prover]
    fn actualizar_heap(&mut self, id: u32)
        requires
            old(self).ids_unicos(),
            ordenado_desc(old(self).productos_por_precio@),
            ranking_sin_repetidos(old(self).productos_por_precio@),
        ensures
            final(self).productos_por_id == old(self).productos_por_id,
            final(self).productos_por_tag == old(self).productos_por_tag,
            final(self).productos_bajo_stock == old(self).productos_bajo_stock,
            final(self).siguiente_id == old(self).siguiente_id,
            ordenado_desc(final(self).productos_por_precio@),
            ranking_sin_repetidos(final(self).productos_por_precio@),
            forall|k: int|
                0 <= k < old(self).productos_por_precio@.len()
                    && (#[trigger] old(self).productos_por_precio@[k]).id != id ==> exists|l: int|
                    0 <= l < final(self).productos_por_precio@.len()
                        && final(self).productos_por_precio@[l]
                        == old(self).productos_por_precio@[k],
            forall|l: int|
                0 <= l < final(self).productos_por_precio@.len()
                    && (#[trigger] final(self).productos_por_precio@[l]).id != id ==> exists|k: int|
                    0 <= k < old(self).productos_por_precio@.len()
                        && old(self).productos_por_precio@[k]
                        == final(self).productos_por_precio@[l],
            old(self).vive(id) ==> exists|k: int|
                0 <= k < final(self).productos_por_precio@.len()
                    && (#[trigger] final(self).productos_por_precio@[k]).id == id
                    && final(self).productos_por_precio@[k].precio == old(self).registro(id).precio,
            !old(self).vive(id) ==> forall|k: int|
                0 <= k < final(self).productos_por_precio@.len()
                    ==> (#[trigger] final(self).productos_por_precio@[k]).id != id,
            final(self).productos_por_precio@.len() == old(self).productos_por_precio@.len() - (
            if tiene_id(old(self).productos_por_precio@, id) {
                1int
            } else {
                0int
            }) + (if old(self).vive(id) {
                1int
            } else {
                0int
            }),
    {
        let ghost rk0 = self.productos_por_precio@;
        ranking_quitar(&mut self.productos_por_precio, id);
        let ghost rk1 = self.productos_por_precio@;
        proof {
            if tiene_id(rk0, id) {
                let kr = choose|kr: int|
                    0 <= kr < rk0.len() && rk0[kr].id == id && rk1 == rk0.remove(kr);
                rk0.remove_ensures(kr);
            }
        }
        match posicion_por_id(&self.productos_por_id, id) {
            Some(j) => {
                proof {
                    assert(self.lista() == old(self).lista());
                    assert(self.lista()[j as int].id == id);
                    assert(self.vive(id));
                    let ji = self.indice_de(id);
                    assert(0 <= ji < self.lista().len() && self.lista()[ji].id == id);
                    if ji < j as int {
                        assert(old(self).lista()[ji].id != old(self).lista()[j as int].id);
                        assert(false);
                    }
                    if ji > j as int {
                        assert(old(self).lista()[j as int].id != old(self).lista()[ji].id);
                        assert(false);
                    }
                }
                let precio = self.productos_por_id[j].precio;
                ranking_insertar(&mut self.productos_por_precio, EntradaPrecio { precio, id });
                proof {
                    let rk2 = self.productos_por_precio@;
                    let e = EntradaPrecio { precio, id };
                    let kp = choose|kp: int| 0 <= kp <= rk1.len() && rk2 == rk1.insert(kp, e);
                    rk1.insert_ensures(kp, e);
                    assert forall|k: int|
                        0 <= k < rk2.len() && k != kp implies (if k < kp {
                        rk2[k] == rk1[k]
                    } else {
                        rk2[k] == rk1[k - 1]
                    }) by {}
                    assert forall|k: int, l: int| 0 <= k < l < rk2.len() implies rk2[k].id
                        != rk2[l].id by {
                        if k != kp && l != kp {
                            if k < kp {
                                assert(rk2[k] == rk1[k]);
                            } else {
                                assert(rk2[k] == rk1[k - 1]);
                            }
                            if l < kp {
                                assert(rk2[l] == rk1[l]);
                            } else {
                                assert(rk2[l] == rk1[l - 1]);
                            }
                        } else if k == kp {
                            assert(rk2[l] == rk1[l - 1]);
                        } else {
                            assert(rk2[k] == rk1[k]);
                        }
                    }
                    assert forall|k: int|
                        0 <= k < rk0.len() && (#[trigger] rk0[k]).id != id implies exists|l: int|
                        0 <= l < rk2.len() && rk2[l] == rk0[k] by {
                        if tiene_id(rk0, id) {
                            let kr = choose|kr: int|
                                0 <= kr < rk0.len() && rk0[kr].id == id && rk1 == rk0.remove(kr);
                            let l1: int = if k < kr {
                                k
                            } else {
                                k - 1
                            };
                            assert(rk1[l1] == rk0[k]);
                            let l2: int = if l1 < kp {
                                l1
                            } else {
                                l1 + 1
                            };
                            assert(rk2[l2] == rk1[l1]);
                        } else {
                            assert(rk1 == rk0);
                            let l2: int = if k < kp {
                                k
                            } else {
                                k + 1
                            };
                            assert(rk2[l2] == rk1[k]);
                        }
                    }
                    assert forall|l: int|
                        0 <= l < rk2.len() && (#[trigger] rk2[l]).id != id implies exists|k: int|
                        0 <= k < rk0.len() && rk0[k] == rk2[l] by {
                        assert(l != kp);
                        let l1: int = if l < kp {
                            l
                        } else {
                            l - 1
                        };
                        assert(rk2[l] == rk1[l1]);
                        if tiene_id(rk0, id) {
                            let kr = choose|kr: int|
                                0 <= kr < rk0.len() && rk0[kr].id == id && rk1 == rk0.remove(kr);
                            let k0: int = if l1 < kr {
                                l1
                            } else {
                                l1 + 1
                            };
                            assert(rk0[k0] == rk1[l1]);
                        } else {
                            assert(rk1 == rk0);
                        }
                    }
                    assert(rk2[kp] == e);
                }
            },
            None => {
                proof {
                    if self.vive(id) {
                        let i0 = choose|i0: int|
                            0 <= i0 < self.lista().len() && self.lista()[i0].id == id;
                        assert(false);
                    }
                    if tiene_id(rk0, id) {
                        let kr = choose|kr: int|
                            0 <= kr < rk0.len() && rk0[kr].id == id && rk1 == rk0.remove(kr);
                        assert forall|k: int|
                            0 <= k < rk0.len() && (#[trigger] rk0[k]).id != id implies exists|
                            l: int,
                        |
                            0 <= l < rk1.len() && rk1[l] == rk0[k] by {
                            let l1: int = if k < kr {
                                k
                            } else {
                                k - 1
                            };
                            assert(rk1[l1] == rk0[k]);
                        }
                        assert forall|l: int| 0 <= l < rk1.len() implies exists|k: int|
                            0 <= k < rk0.len() && rk0[k] == #[trigger] rk1[l] by {
                            let k0: int = if l < kr {
                                l
                            } else {
                                l + 1
                            };
                            assert(rk0[k0] == rk1[l]);
                        }
                    }
                }
            },
        }
    }
}


impl InventarioManager {
    /// Cambia el stock del registro `id`, repara el conjunto de bajo
    /// stock y el ranking, y no toca ni tags ni precio. Falla con
    /// `NoEncontrado` exactamente cuando el id no está vivo, y en ese
    /// caso no cambia nada.
    #[verifier::rlimit(100)]
    #[verifier::spinoff_prover]
    pub fn actualizar_stock(&mut self, id: u32, nuevo_stock: u32) -> (r: Result<
        (),
        ErrorInventario,
    >)
        requires
            old(self).wf(),
        ensures
            final(self).wf(),
            final(self).siguiente() == old(self).siguiente(),
            match r {
                Ok(()) => old(self).registros().dom().contains(id) && final(self).registros()
                    == old(self).registros().insert(
                    id,
                    VistaProducto { stock: nuevo_stock, ..old(self).registros()[id] },
                ),
                Err(e) => e == ErrorInventario::NoEncontrado(id) && !old(
                    self,
                ).registros().dom().contains(id) && *final(self) == *old(self),
            },
    {
        let ghost antes = *self;
        match posicion_por_id(&self.productos_por_id, id) {
            None => {
                proof {
                    if self.vive(id) {
                        let i0 = choose|i0: int|
                            0 <= i0 < self.lista().len() && self.lista()[i0].id == id;
                        assert(false);
                    }
                }
                Err(ErrorInventario::NoEncontrado(id))
            },
            Some(j) => {
                proof {
                    antes.lemma_registro_en(j as int);
                }
                let viejo = self.productos_por_id.remove(j);
                let p = Producto { stock: nuevo_stock, ..viejo };
                let ghost p_g = p;
                self.productos_por_id.insert(j, p);
                proof {
                    assert(self.lista() =~= antes.lista().update(j as int, p_g));
                    lemma_tras_actualizar(antes, *self, j as int, p_g);
                    assert(p_g@ == VistaProducto { stock: nuevo_stock, ..antes.registros()[id] });
                }
                if nuevo_stock < UMBRAL_BAJO_STOCK {
                    poner_id(&mut self.productos_bajo_stock, id);
                } else {
                    quitar_id(&mut self.productos_bajo_stock, id);
                }
                let ghost medio = *self;
                self.actualizar_heap(id);
                proof {
                    lemma_actualizar_wf(antes, medio, *self, j as int, p_g, nuevo_stock);
                    assert(self.registros() == antes.registros().insert(
                        id,
                        VistaProducto { stock: nuevo_stock, ..antes.registros()[id] },
                    ));
                }
                Ok(())
            },
        }
    }

    /// Borra el registro `id` de las cuatro vistas, podando las
    /// cubetas de tags que queden vacías. Falla con `NoEncontrado`
    /// exactamente cuando el id no está vivo, sin cambiar nada.
    #[verifier::loop_isolation(false)]
    #[verifier::rlimit(100)]
    #[verifier::spinoff_prover]
    pub fn eliminar_producto(&mut self, id: u32) -> (r: Result<(), ErrorInventario>)
        requires
            old(self).wf(),
        ensures
            final(self).wf(),
            final(self).siguiente() == old(self).siguiente(),
            match r {
                Ok(()) => old(self).registros().dom().contains(id) && final(self).registros()
                    == old(self).registros().remove(id),
                Err(e) => e == ErrorInventario::NoEncontrado(id) && !old(
                    self,
                ).registros().dom().contains(id) && *final(self) == *old(self),
            },
    {
        let ghost antes = *self;
        match posicion_por_id(&self.productos_por_id, id) {
            None => {
                proof {
                    if self.vive(id) {
                        let i0 = choose|i0: int|
                            0 <= i0 < self.lista().len() && self.lista()[i0].id == id;
                        assert(false);
                    }
                }
                Err(ErrorInventario::NoEncontrado(id))
            },
            Some(j) => {
                proof {
                    antes.lemma_registro_en(j as int);
                }
                let p = self.productos_por_id.remove(j);
                let ghost p_g = p;
                proof {
                    assert(p_g == antes.lista()[j as int]);
                }
                quitar_id(&mut self.productos_bajo_stock, id);
                let ghost ind0 = self.productos_por_tag@;
                let ghost medio = *self;
                let mut t: usize = 0;
                while t < p.tags.len()
                    invariant
                        0 <= t <= p.tags@.len(),
                        cubetas_bien(self.productos_por_tag@),
                        forall|tg: Seq<char>, x: u32|
                            #[trigger] en_cubetas(self.productos_por_tag@, tg, x) <==> en_cubetas(
                                ind0,
                                tg,
                                x,
                            ) && !(x == id && exists|k: int| 0 <= k < t && p.tags@[k]@ == tg),
                        self.productos_por_id == medio.productos_por_id,
                        self.productos_por_precio == medio.productos_por_precio,
                        self.productos_bajo_stock == medio.productos_bajo_stock,
                        self.siguiente_id == medio.siguiente_id,
                        p == p_g,
                    decreases p.tags.len() - t,
                {
                    quita_tag(&mut self.productos_por_tag, &p.tags[t], id);
                    t += 1;
                    proof {
                        assert forall|tg: Seq<char>, x: u32| #[trigger]
                            en_cubetas(self.productos_por_tag@, tg, x) implies en_cubetas(
                            ind0,
                            tg,
                            x,
                        ) && !(x == id && exists|k: int| 0 <= k < t && p.tags@[k]@ == tg) by {
                            if x == id && exists|k: int| 0 <= k < t && p.tags@[k]@ == tg {
                                let k = choose|k: int| 0 <= k < t && p.tags@[k]@ == tg;
                                if k == t - 1 {
                                    assert(tg == p.tags@[t - 1]@);
                                }
                                assert(false);
                            }
                        }
                        assert forall|tg: Seq<char>, x: u32|
                            en_cubetas(ind0, tg, x) && !(x == id && exists|k: int|
                                0 <= k < t && p.tags@[k]@ == tg) implies #[trigger] en_cubetas(
                            self.productos_por_tag@,
                            tg,
                            x,
                        ) by {
                            if x == id {
                                assert(!(exists|k: int| 0 <= k < t - 1 && p.tags@[k]@ == tg));
                                assert(tg != p.tags@[t - 1]@);
                            }
                        }
                    }
                }
                self.actualizar_heap(id);
                proof {
                    lemma_eliminar_wf(antes, medio, *self, j as int, p_g);
                }
                Ok(())
            },
        }
    }

    /// El id que recibirá la próxima inserción.
    pub fn proximo_id(&self) -> (r: u32)
        ensures
            r == self.siguiente(),
    {
        self.siguiente_id
    }

    /// Codifica todos los registros vivos al formato de línea, en su
    /// orden interno, una línea por registro.
    pub fn guardar_inventario(&self) -> (r: String)
        requires
            self.wf(),
        ensures
            r@ == crate::formato::contenido_de(self.lista()),
    {
        crate::formato::codificar_productos(&self.productos_por_id)
    }

    /// Todo id emitido o cargado queda bajo el contador, y el conjunto
    /// de bajo stock contiene un id vivo exactamente cuando su stock
    /// está bajo el umbral.
    pub proof fn lemma_bajo_stock_exacto(self, id: u32)
        requires
            self.wf(),
            self.registros().dom().contains(id),
        ensures
            self.ids_bajo_stock().contains(id) <==> self.registros()[id].stock
                < UMBRAL_BAJO_STOCK,
    {
        let i = self.indice_de(id);
        assert(0 <= i < self.lista().len() && self.lista()[i].id == id);
        self.lemma_registro_en(i);
        if self.ids_bajo_stock().contains(id) {
            let k = choose|k: int|
                0 <= k < self.productos_bajo_stock@.len() && self.productos_bajo_stock@[k] == id;
        }
        if self.lista()[i].stock < UMBRAL_BAJO_STOCK {
            assert(self.productos_bajo_stock@.contains(id));
        }
    }

    /// Un id que no está vivo no figura en ninguna vista derivada:
    /// tras un borrado, ni las búsquedas por tag ni la lista de bajo
    /// stock pueden devolverlo.
    pub proof fn lemma_borrado_invisible(self, id: u32, tag: Seq<char>)
        requires
            self.wf(),
            !self.registros().dom().contains(id),
        ensures
            !self.ids_con_tag(tag).contains(id),
            !self.ids_bajo_stock().contains(id),
    {
        if self.en_indice_tags(tag, id) {
            assert(self.vive(id));
        }
        if self.ids_bajo_stock().contains(id) {
            let k = choose|k: int|
                0 <= k < self.productos_bajo_stock@.len() && self.productos_bajo_stock@[k] == id;
            assert(self.vive(id));
        }
    }

    /// El índice por tag contiene un id vivo bajo un tag exactamente
    /// cuando su registro lleva ese tag: junto con
    /// `lemma_borrado_invisible`, el índice queda determinado por el
    /// modelo.
    pub proof fn lemma_tag_exacto(self, id: u32, tag: Seq<char>)
        requires
            self.wf(),
            self.registros().dom().contains(id),
        ensures
            self.ids_con_tag(tag).contains(id) <==> self.registros()[id].tags.contains(tag),
    {
        let i = self.indice_de(id);
        assert(0 <= i < self.lista().len() && self.lista()[i].id == id);
        self.lemma_registro_en(i);
        if self.ids_con_tag(tag).contains(id) {
            assert(self.en_indice_tags(tag, id));
            assert(self.registro(id).tags.contains(tag));
        }
        if self.registros()[id].tags.contains(tag) {
            assert(self.lista()[i]@.tags.contains(tag));
            assert(self.en_indice_tags(tag, self.lista()[i].id));
        }
    }

    /// El mapa primario, visto como lista, enumera el modelo sin
    /// repetir ningún id: cada posición es un registro vivo igual a su
    /// entrada del modelo, y cada id vivo ocupa una posición.
    pub proof fn lemma_lista_modelo(self)
        requires
            self.wf(),
        ensures
            forall|i: int|
                0 <= i < self.lista().len() ==> self.registros().dom().contains(
                    (#[trigger] self.lista()[i]).id,
                ) && self.registros()[self.lista()[i].id] == self.lista()[i]@,
            forall|i: int, j: int|
                0 <= i < j < self.lista().len() ==> self.lista()[i].id != self.lista()[j].id,
            forall|id: u32|
                #[trigger] self.registros().dom().contains(id) ==> exists|i: int|
                    0 <= i < self.lista().len() && self.lista()[i].id == id,
    {
        assert forall|i: int|
            0 <= i < self.lista().len() implies self.registros().dom().contains(
            (#[trigger] self.lista()[i]).id,
        ) && self.registros()[self.lista()[i].id] == self.lista()[i]@ by {
            self.lemma_registro_en(i);
        }
    }
}


/// Tras un borrado completo (mapa primario, bajo stock, cubetas y
/// reparación del ranking), el gestor vuelve a estar bien formado y
/// su modelo pierde exactamente la entrada borrada. `medio` es el
/// estado intermedio anterior a la reparación del ranking.
#[verifier::spinoff_prover]
proof fn lemma_eliminar_wf(
    antes: InventarioManager,
    medio: InventarioManager,
    desp: InventarioManager,
    j: int,
    p: Producto,
)
    requires
        antes.wf(),
        0 <= j < antes.lista().len(),
        p == antes.lista()[j],
        medio.lista() == antes.lista().remove(j),
        medio.productos_por_precio == antes.productos_por_precio,
        desp.lista() == medio.lista(),
        desp.siguiente_id == antes.siguiente_id,
        cubetas_bien(desp.productos_por_tag@),
        forall|tg: Seq<char>, x: u32|
            #[trigger] en_cubetas(desp.productos_por_tag@, tg, x) <==> en_cubetas(
                antes.productos_por_tag@,
                tg,
                x,
            ) && !(x == p.id && exists|k: int| 0 <= k < p.tags@.len() && p.tags@[k]@ == tg),
        forall|k: int, l: int|
            0 <= k < l < desp.productos_bajo_stock@.len() ==> desp.productos_bajo_stock@[k]
                != desp.productos_bajo_stock@[l],
        forall|y: u32|
            desp.productos_bajo_stock@.contains(y) <==> antes.productos_bajo_stock@.contains(y)
                && y != p.id,
        ordenado_desc(desp.productos_por_precio@),
        ranking_sin_repetidos(desp.productos_por_precio@),
        !medio.vive(p.id) ==> forall|k: int|
            0 <= k < desp.productos_por_precio@.len()
                ==> (#[trigger] desp.productos_por_precio@[k]).id != p.id,
        forall|k: int|
            0 <= k < medio.productos_por_precio@.len()
                && (#[trigger] medio.productos_por_precio@[k]).id != p.id ==> exists|l: int|
                0 <= l < desp.productos_por_precio@.len() && desp.productos_por_precio@[l]
                    == medio.productos_por_precio@[k],
        forall|l: int|
            0 <= l < desp.productos_por_precio@.len()
                && (#[trigger] desp.productos_por_precio@[l]).id != p.id ==> exists|k: int|
                0 <= k < medio.productos_por_precio@.len() && medio.productos_por_precio@[k]
                    == desp.productos_por_precio@[l],
        desp.productos_por_precio@.len() == medio.productos_por_precio@.len() - (if tiene_id(
            medio.productos_por_precio@,
            p.id,
        ) {
            1int
        } else {
            0int
        }) + (if medio.vive(p.id) {
            1int
        } else {
            0int
        }),
    ensures
        desp.wf(),
        desp.registros() == antes.registros().remove(p.id),
{
    lemma_tras_quitar(antes, desp, j);
    lemma_eliminar_tags(antes, desp, j, p);
    lemma_eliminar_ranking(antes, medio, desp, j, p);
    lemma_eliminar_bajo(antes, desp, j, p);
    assert forall|i: int|
        0 <= i < desp.lista().len() implies (#[trigger] desp.lista()[i]).wf()
            && desp.lista()[i].id < desp.siguiente_id by {
        antes.lista().remove_ensures(j);
        if i < j {
            assert(desp.lista()[i] == antes.lista()[i]);
        } else {
            assert(desp.lista()[i] == antes.lista()[i + 1]);
        }
    }
    assert(desp.wf());
}

/// El índice por tag queda fiel al mapa primario tras el borrado.
#[verifier::rlimit(100)]
#[verifier::spinoff_prover]
proof fn lemma_eliminar_tags(
    antes: InventarioManager,
    desp: InventarioManager,
    j: int,
    p: Producto,
)
    requires
        antes.wf(),
        0 <= j < antes.lista().len(),
        p == antes.lista()[j],
        desp.lista() == antes.lista().remove(j),
        cubetas_bien(desp.productos_por_tag@),
        forall|tg: Seq<char>, x: u32|
            #[trigger] en_cubetas(desp.productos_por_tag@, tg, x) <==> en_cubetas(
                antes.productos_por_tag@,
                tg,
                x,
            ) && !(x == p.id && exists|k: int| 0 <= k < p.tags@.len() && p.tags@[k]@ == tg),
    ensures
        desp.tags_bien(),
{
    let id = p.id;
    antes.lemma_registro_en(j);
    antes.lista().remove_ensures(j);
    lemma_tras_quitar(antes, desp, j);
    assert forall|tg: Seq<char>, x: u32| #[trigger]
        desp.en_indice_tags(tg, x) implies desp.vive(x) && desp.registro(x).tags.contains(tg) by {
        assert(en_cubetas(antes.productos_por_tag@, tg, x) && x != id) by {
            if x == id {
                assert(antes.en_indice_tags(tg, id));
                assert(antes.registro(id).tags.contains(tg));
                assert(antes.registro(id) == p@);
            }
        }
        assert(antes.en_indice_tags(tg, x));
        assert(desp.registro(x) == antes.registro(x));
    }
    assert forall|i: int, tg: Seq<char>|
        0 <= i < desp.lista().len() && #[trigger] desp.lista()[i]@.tags.contains(
            tg,
        ) implies desp.en_indice_tags(tg, desp.lista()[i].id) by {
        let ia: int = if i < j {
            i
        } else {
            i + 1
        };
        assert(desp.lista()[i] == antes.lista()[ia]);
        assert(antes.en_indice_tags(tg, antes.lista()[ia].id));
        assert(antes.lista()[ia].id != id) by {
            if ia != j {
                assert(antes.lista()[ia].id != antes.lista()[j].id);
            }
        }
        assert(en_cubetas(desp.productos_por_tag@, tg, desp.lista()[i].id));
    }
}

/// El ranking queda fiel al mapa primario tras el borrado.
#[verifier::rlimit(100)]
#[verifier::spinoff_prover]
proof fn lemma_eliminar_ranking(
    antes: InventarioManager,
    medio: InventarioManager,
    desp: InventarioManager,
    j: int,
    p: Producto,
)
    requires
        antes.wf(),
        0 <= j < antes.lista().len(),
        p == antes.lista()[j],
        medio.lista() == antes.lista().remove(j),
        medio.productos_por_precio == antes.productos_por_precio,
        desp.lista() == medio.lista(),
        ordenado_desc(desp.productos_por_precio@),
        ranking_sin_repetidos(desp.productos_por_precio@),
        !medio.vive(p.id) ==> forall|k: int|
            0 <= k < desp.productos_por_precio@.len()
                ==> (#[trigger] desp.productos_por_precio@[k]).id != p.id,
        forall|k: int|
            0 <= k < medio.productos_por_precio@.len()
                && (#[trigger] medio.productos_por_precio@[k]).id != p.id ==> exists|l: int|
                0 <= l < desp.productos_por_precio@.len() && desp.productos_por_precio@[l]
                    == medio.productos_por_precio@[k],
        forall|l: int|
            0 <= l < desp.productos_por_precio@.len()
                && (#[trigger] desp.productos_por_precio@[l]).id != p.id ==> exists|k: int|
                0 <= k < medio.productos_por_precio@.len() && medio.productos_por_precio@[k]
                    == desp.productos_por_precio@[l],
        desp.productos_por_precio@.len() == medio.productos_por_precio@.len() - (if tiene_id(
            medio.productos_por_precio@,
            p.id,
        ) {
            1int
        } else {
            0int
        }) + (if medio.vive(p.id) {
            1int
        } else {
            0int
        }),
    ensures
        desp.ranking_bien(),
{
    let id = p.id;
    antes.lemma_registro_en(j);
    antes.lista().remove_ensures(j);
    lemma_tras_quitar(antes, desp, j);
    assert(!medio.vive(id)) by {
        if medio.vive(id) {
            let i0 = choose|i0: int|
                0 <= i0 < medio.lista().len() && medio.lista()[i0].id == id;
            if i0 < j {
                assert(antes.lista().remove(j)[i0] == antes.lista()[i0]);
                assert(antes.lista()[i0].id != antes.lista()[j].id);
            } else {
                assert(antes.lista().remove(j)[i0] == antes.lista()[i0 + 1]);
                assert(antes.lista()[i0 + 1].id != antes.lista()[j].id);
            }
            assert(false);
        }
    }
    assert(tiene_id(medio.productos_por_precio@, id)) by {
        assert(tiene_id(antes.productos_por_precio@, antes.lista()[j].id));
        let k0 = choose|k0: int|
            0 <= k0 < antes.productos_por_precio@.len() && antes.productos_por_precio@[k0].id
                == antes.lista()[j].id;
        assert(medio.productos_por_precio@[k0].id == id);
    }
    assert(desp.productos_por_precio@.len() == desp.lista().len());
    lemma_eliminar_ranking_entradas(antes, desp, j, p);
    lemma_eliminar_ranking_completo(antes, desp, j, p);
    assert(desp.ranking_bien());
}

/// Cada entrada del ranking reparado apunta a un registro vivo con su
/// precio actual.
#[verifier::rlimit(100)]
#[verifier::spinoff_prover]
proof fn lemma_eliminar_ranking_entradas(
    antes: InventarioManager,
    desp: InventarioManager,
    j: int,
    p: Producto,
)
    requires
        antes.wf(),
        0 <= j < antes.lista().len(),
        p == antes.lista()[j],
        desp.lista() == antes.lista().remove(j),
        forall|k: int|
            0 <= k < desp.productos_por_precio@.len()
                ==> (#[trigger] desp.productos_por_precio@[k]).id != p.id,
        forall|l: int|
            0 <= l < desp.productos_por_precio@.len() ==> exists|k: int|
                0 <= k < antes.productos_por_precio@.len() && antes.productos_por_precio@[k] == (
                #[trigger] desp.productos_por_precio@[l]),
    ensures
        forall|k: int|
            0 <= k < desp.productos_por_precio@.len() ==> desp.vive(
                (#[trigger] desp.productos_por_precio@[k]).id,
            ) && desp.registro(desp.productos_por_precio@[k].id).precio
                == desp.productos_por_precio@[k].precio,
{
    let id = p.id;
    lemma_tras_quitar(antes, desp, j);
    let rk0 = antes.productos_por_precio@;
    assert forall|k: int|
        0 <= k < desp.productos_por_precio@.len() implies desp.vive(
        (#[trigger] desp.productos_por_precio@[k]).id,
    ) && desp.registro(desp.productos_por_precio@[k].id).precio
        == desp.productos_por_precio@[k].precio by {
        let e = desp.productos_por_precio@[k];
        assert(e.id != id);
        let k0 = choose|k0: int| 0 <= k0 < rk0.len() && rk0[k0] == e;
        assert(antes.vive(rk0[k0].id));
        assert(desp.registro(e.id) == antes.registro(e.id));
    }
}

/// Todo registro que sobrevive al borrado conserva una entrada en el
/// ranking reparado.
#[verifier::rlimit(100)]
#[verifier::spinoff_prover]
proof fn lemma_eliminar_ranking_completo(
    antes: InventarioManager,
    desp: InventarioManager,
    j: int,
    p: Producto,
)
    requires
        antes.wf(),
        0 <= j < antes.lista().len(),
        p == antes.lista()[j],
        desp.lista() == antes.lista().remove(j),
        forall|k: int|
            0 <= k < antes.productos_por_precio@.len()
                && (#[trigger] antes.productos_por_precio@[k]).id != p.id ==> exists|l: int|
                0 <= l < desp.productos_por_precio@.len() && desp.productos_por_precio@[l]
                    == antes.productos_por_precio@[k],
    ensures
        forall|i: int|
            0 <= i < desp.lista().len() ==> tiene_id(
                desp.productos_por_precio@,
                (#[trigger] desp.lista()[i]).id,
            ),
{
    let id = p.id;
    antes.lista().remove_ensures(j);
    let rk0 = antes.productos_por_precio@;
    let rk = desp.productos_por_precio@;
    assert forall|i: int| 0 <= i < desp.lista().len() implies tiene_id(
        desp.productos_por_precio@,
        (#[trigger] desp.lista()[i]).id,
    ) by {
        let ia: int = if i < j {
            i
        } else {
            i + 1
        };
        assert(desp.lista()[i] == antes.lista()[ia]);
        assert(tiene_id(antes.productos_por_precio@, antes.lista()[ia].id));
        let k0 = choose|k0: int|
            0 <= k0 < antes.productos_por_precio@.len() && antes.productos_por_precio@[k0].id
                == antes.lista()[ia].id;
        assert(antes.lista()[ia].id != id) by {
            if ia != j {
                assert(antes.lista()[ia].id != antes.lista()[j].id);
            }
        }
        assert(rk0[k0].id != id);
        let l = choose|l: int| 0 <= l < rk.len() && rk[l] == rk0[k0];
        assert(desp.productos_por_precio@[l].id == desp.lista()[i].id);
    }
}

/// El conjunto de bajo stock queda fiel al mapa primario tras el borrado.
#[verifier::rlimit(100)]
#[verifier::spinoff_prover]
proof fn lemma_eliminar_bajo(
    antes: InventarioManager,
    desp: InventarioManager,
    j: int,
    p: Producto,
)
    requires
        antes.wf(),
        0 <= j < antes.lista().len(),
        p == antes.lista()[j],
        desp.lista() == antes.lista().remove(j),
        forall|k: int, l: int|
            0 <= k < l < desp.productos_bajo_stock@.len() ==> desp.productos_bajo_stock@[k]
                != desp.productos_bajo_stock@[l],
        forall|y: u32|
            desp.productos_bajo_stock@.contains(y) <==> antes.productos_bajo_stock@.contains(y)
                && y != p.id,
    ensures
        desp.bajo_stock_bien(),
{
    let id = p.id;
    antes.lemma_registro_en(j);
    antes.lista().remove_ensures(j);
    lemma_tras_quitar(antes, desp, j);
    let bs = desp.productos_bajo_stock@;
    assert forall|k: int|
        0 <= k < bs.len() implies desp.vive(#[trigger] bs[k]) && desp.registro(bs[k]).stock
            < UMBRAL_BAJO_STOCK by {
        assert(bs.contains(bs[k]));
        assert(antes.productos_bajo_stock@.contains(bs[k]) && bs[k] != id);
        let m = choose|m: int|
            0 <= m < antes.productos_bajo_stock@.len() && antes.productos_bajo_stock@[m] == bs[k];
        assert(antes.vive(bs[k]));
        assert(desp.registro(bs[k]) == antes.registro(bs[k]));
    }
    assert forall|i: int|
        0 <= i < desp.lista().len() && (#[trigger] desp.lista()[i]).stock
            < UMBRAL_BAJO_STOCK implies bs.contains(desp.lista()[i].id) by {
        let ia: int = if i < j {
            i
        } else {
            i + 1
        };
        assert(desp.lista()[i] == antes.lista()[ia]);
        assert(antes.productos_bajo_stock@.contains(antes.lista()[ia].id));
        assert(antes.lista()[ia].id != id) by {
            if ia != j {
                assert(antes.lista()[ia].id != antes.lista()[j].id);
            }
        }
    }
}


/// El mapa que dejan unas vistas decodificadas insertadas en orden:
/// ante ids repetidos queda la última aparición.
pub open spec fn indexa(vs: Seq<VistaProducto>) -> Map<u32, VistaProducto>
    decreases vs.len(),
{
    if vs.len() == 0 {
        Map::<u32, VistaProducto>::empty()
    } else {
        indexa(vs.drop_last()).insert(vs.last().id, vs.last())
    }
}

impl InventarioManager {
    /// Reemplazo completo: decodifica el contenido y repuebla las
    /// cuatro vistas registro a registro, conservando los ids ya
    /// presentes en los datos y dejando el contador justo por encima
    /// del mayor id cargado. Ante un id repetido queda la última
    /// aparición. Si algún id no deja avanzar el contador, falla sin
    /// tocar nada; el estado anterior sobrevive entero.
    #[verifier::loop_isolation(false)]
    #[verifier::rlimit(60)]
    #[verifier::spinoff_prover]
    pub fn cargar_inventario(&mut self, contenido: &str) -> (r: Result<(), ErrorInventario>)
        requires
            old(self).wf(),
        ensures
            final(self).wf(),
            match r {
                Ok(()) => {
                    &&& forall|k: int|
                        0 <= k < crate::formato::decodificar(contenido@).len()
                            ==> (#[trigger] crate::formato::decodificar(contenido@)[k]).id
                            < u32::MAX
                    &&& final(self).registros() == indexa(crate::formato::decodificar(contenido@))
                    &&& (final(self).siguiente() == 1 || exists|k: int|
                        0 <= k < crate::formato::decodificar(contenido@).len()
                            && (#[trigger] crate::formato::decodificar(contenido@)[k]).id + 1
                            == final(self).siguiente())
                },
                Err(e) => {
                    &&& e == ErrorInventario::IdFueraDeRango(u32::MAX)
                    &&& exists|k: int|
                        0 <= k < crate::formato::decodificar(contenido@).len()
                            && (#[trigger] crate::formato::decodificar(contenido@)[k]).id
                            == u32::MAX
                    &&& *final(self) == *old(self)
                },
            },
    {
        let productos = crate::formato::decodificar_productos(contenido);
        let ghost vs = crate::formato::decodificar(contenido@);
        let mut i: usize = 0;
        while i < productos.len()
            invariant
                0 <= i <= productos@.len(),
                forall|k: int| 0 <= k < i ==> (#[trigger] vs[k]).id < u32::MAX,
            decreases productos.len() - i,
        {
            if productos[i].id == u32::MAX {
                proof {
                    assert(vs[i as int].id == u32::MAX);
                }
                return Err(ErrorInventario::IdFueraDeRango(u32::MAX));
            }
            i += 1;
        }
        let mut nuevo = InventarioManager::new();
        proof {
            assert(vs.take(0) =~= Seq::<VistaProducto>::empty());
            assert(nuevo.registros() =~= indexa(vs.take(0)));
        }
        let mut m: usize = 0;
        while m < productos.len()
            invariant
                0 <= m <= productos@.len(),
                nuevo.wf(),
                nuevo.registros() == indexa(vs.take(m as int)),
                nuevo.siguiente() == 1 || exists|k: int|
                    0 <= k < m && (#[trigger] vs[k]).id + 1 == nuevo.siguiente(),
            decreases productos.len() - m,
        {
            let p = productos[m].clone();
            proof {
                assert(p@ == vs[m as int]);
                assert(p.id == vs[m as int].id);
                assert(p.id < u32::MAX);
            }
            let ghost paso = nuevo;
            match posicion_por_id(&nuevo.productos_por_id, p.id) {
                Some(_) => {
                    let quitado = nuevo.eliminar_producto(p.id);
                    proof {
                        if quitado is Err {
                            assert(false);
                        }
                    }
                },
                None => {
                    proof {
                        if nuevo.vive(p.id) {
                            let i0 = choose|i0: int|
                                0 <= i0 < nuevo.lista().len() && nuevo.lista()[i0].id == p.id;
                            assert(false);
                        }
                    }
                },
            }
            proof {
                assert(!nuevo.registros().dom().contains(p.id));
                if nuevo.vive(p.id) {
                    assert(nuevo.registros().dom().contains(p.id));
                }
            }
            let ghost sin_id = nuevo;
            let ghost id_p = p.id;
            let ghost vista_p = p@;
            nuevo.insertar_directo(p);
            proof {
                assert(vs.take(m as int + 1).drop_last() =~= vs.take(m as int));
                assert(vs.take(m as int + 1).last() == vs[m as int]);
                assert(indexa(vs.take(m as int + 1)) == indexa(vs.take(m as int)).insert(
                    vs[m as int].id,
                    vs[m as int],
                ));
                assert(nuevo.registros() == sin_id.registros().insert(id_p, vista_p));
                assert(sin_id.registros() =~= paso.registros().remove(id_p)
                    || sin_id.registros() == paso.registros()) by {
                    if sin_id.registros() != paso.registros() {
                    }
                }
                assert(nuevo.registros() =~= indexa(vs.take(m as int + 1)));
            }
            m += 1;
        }
        proof {
            assert(vs.take(vs.len() as int) =~= vs);
        }
        *self = nuevo;
        Ok(())
    }
}


/// Tras una actualización de stock completa (mapa primario, bajo
/// stock y reparación del ranking), el gestor vuelve a estar bien
/// formado y su modelo cambia solo en la entrada tocada. `medio` es
/// el estado intermedio anterior a la reparación del ranking.
#[verifier::spinoff_prover]
proof fn lemma_actualizar_wf(
    antes: InventarioManager,
    medio: InventarioManager,
    desp: InventarioManager,
    j: int,
    p: Producto,
    nuevo_stock: u32,
)
    requires
        antes.wf(),
        0 <= j < antes.lista().len(),
        p.id == antes.lista()[j].id,
        p.nombre == antes.lista()[j].nombre,
        p.precio == antes.lista()[j].precio,
        p.tags == antes.lista()[j].tags,
        p.stock == nuevo_stock,
        medio.lista() == antes.lista().update(j, p),
        medio.productos_por_precio == antes.productos_por_precio,
        desp.lista() == medio.lista(),
        desp.siguiente_id == antes.siguiente_id,
        desp.productos_por_tag == antes.productos_por_tag,
        desp.productos_bajo_stock == medio.productos_bajo_stock,
        forall|k: int, l: int|
            0 <= k < l < desp.productos_bajo_stock@.len() ==> desp.productos_bajo_stock@[k]
                != desp.productos_bajo_stock@[l],
        forall|y: u32|
            desp.productos_bajo_stock@.contains(y) <==> (antes.productos_bajo_stock@.contains(y)
                && y != p.id) || (nuevo_stock < UMBRAL_BAJO_STOCK && y == p.id),
        ordenado_desc(desp.productos_por_precio@),
        ranking_sin_repetidos(desp.productos_por_precio@),
        medio.vive(p.id) ==> exists|k: int|
            0 <= k < desp.productos_por_precio@.len()
                && (#[trigger] desp.productos_por_precio@[k]).id == p.id
                && desp.productos_por_precio@[k].precio == medio.registro(p.id).precio,
        forall|k: int|
            0 <= k < medio.productos_por_precio@.len()
                && (#[trigger] medio.productos_por_precio@[k]).id != p.id ==> exists|l: int|
                0 <= l < desp.productos_por_precio@.len() && desp.productos_por_precio@[l]
                    == medio.productos_por_precio@[k],
        forall|l: int|
            0 <= l < desp.productos_por_precio@.len()
                && (#[trigger] desp.productos_por_precio@[l]).id != p.id ==> exists|k: int|
                0 <= k < medio.productos_por_precio@.len() && medio.productos_por_precio@[k]
                    == desp.productos_por_precio@[l],
        desp.productos_por_precio@.len() == medio.productos_por_precio@.len() - (if tiene_id(
            medio.productos_por_precio@,
            p.id,
        ) {
            1int
        } else {
            0int
        }) + (if medio.vive(p.id) {
            1int
        } else {
            0int
        }),
    ensures
        desp.wf(),
        desp.registros() == antes.registros().insert(p.id, p@),
{
    antes.lemma_registro_en(j);
    lemma_tras_actualizar(antes, desp, j, p);
    assert forall|i: int|
        0 <= i < desp.lista().len() implies (#[trigger] desp.lista()[i]).wf()
            && desp.lista()[i].id < desp.siguiente_id by {
        if i != j {
            assert(desp.lista()[i] == antes.lista()[i]);
        } else {
            assert(desp.lista()[j].wf() == antes.lista()[j].wf());
        }
    }
    lemma_actualizar_tags(antes, desp, j, p);
    lemma_actualizar_ranking(antes, medio, desp, j, p);
    lemma_actualizar_bajo(antes, desp, j, p, nuevo_stock);
    assert(desp.wf());
}

/// El índice por tag, que no cambia, sigue fiel al mapa primario: el
/// registro tocado conserva sus tags.
#[verifier::rlimit(100)]
#[verifier::spinoff_prover]
proof fn lemma_actualizar_tags(
    antes: InventarioManager,
    desp: InventarioManager,
    j: int,
    p: Producto,
)
    requires
        antes.wf(),
        0 <= j < antes.lista().len(),
        p.id == antes.lista()[j].id,
        p.tags == antes.lista()[j].tags,
        desp.lista() == antes.lista().update(j, p),
        desp.productos_por_tag == antes.productos_por_tag,
    ensures
        desp.tags_bien(),
{
    let id = p.id;
    antes.lemma_registro_en(j);
    lemma_tras_actualizar(antes, desp, j, p);
    assert forall|tg: Seq<char>, x: u32| #[trigger]
        desp.en_indice_tags(tg, x) implies desp.vive(x) && desp.registro(x).tags.contains(tg) by {
        assert(en_cubetas(antes.productos_por_tag@, tg, x));
        assert(antes.en_indice_tags(tg, x));
        if x == id {
            assert(desp.registro(id) == p@);
            assert(p@.tags == antes.registro(id).tags);
        }
    }
    assert forall|i: int, tg: Seq<char>|
        0 <= i < desp.lista().len() && #[trigger] desp.lista()[i]@.tags.contains(
            tg,
        ) implies desp.en_indice_tags(tg, desp.lista()[i].id) by {
        if i != j {
            assert(desp.lista()[i] == antes.lista()[i]);
            assert(antes.en_indice_tags(tg, antes.lista()[i].id));
        } else {
            assert(desp.lista()[j] == p);
            assert(p@.tags == antes.lista()[j]@.tags);
            assert(antes.en_indice_tags(tg, antes.lista()[j].id));
        }
    }
}

/// El ranking reparado sigue fiel al mapa primario tras la
/// actualización.
#[verifier::rlimit(100)]
#[verifier::spinoff_prover]
proof fn lemma_actualizar_ranking(
    antes: InventarioManager,
    medio: InventarioManager,
    desp: InventarioManager,
    j: int,
    p: Producto,
)
    requires
        antes.wf(),
        0 <= j < antes.lista().len(),
        p.id == antes.lista()[j].id,
        p.precio == antes.lista()[j].precio,
        medio.lista() == antes.lista().update(j, p),
        medio.productos_por_precio == antes.productos_por_precio,
        desp.lista() == medio.lista(),
        ordenado_desc(desp.productos_por_precio@),
        ranking_sin_repetidos(desp.productos_por_precio@),
        medio.vive(p.id) ==> exists|k: int|
            0 <= k < desp.productos_por_precio@.len()
                && (#[trigger] desp.productos_por_precio@[k]).id == p.id
                && desp.productos_por_precio@[k].precio == medio.registro(p.id).precio,
        forall|k: int|
            0 <= k < medio.productos_por_precio@.len()
                && (#[trigger] medio.productos_por_precio@[k]).id != p.id ==> exists|l: int|
                0 <= l < desp.productos_por_precio@.len() && desp.productos_por_precio@[l]
                    == medio.productos_por_precio@[k],
        forall|l: int|
            0 <= l < desp.productos_por_precio@.len()
                && (#[trigger] desp.productos_por_precio@[l]).id != p.id ==> exists|k: int|
                0 <= k < medio.productos_por_precio@.len() && medio.productos_por_precio@[k]
                    == desp.productos_por_precio@[l],
        desp.productos_por_precio@.len() == medio.productos_por_precio@.len() - (if tiene_id(
            medio.productos_por_precio@,
            p.id,
        ) {
            1int
        } else {
            0int
        }) + (if medio.vive(p.id) {
            1int
        } else {
            0int
        }),
    ensures
        desp.ranking_bien(),
{
    let id = p.id;
    antes.lemma_registro_en(j);
    lemma_tras_actualizar(antes, desp, j, p);
    lemma_tras_actualizar(antes, medio, j, p);
    assert(medio.vive(id));
    assert(medio.registro(id) == p@);
    assert(tiene_id(medio.productos_por_precio@, id)) by {
        assert(tiene_id(antes.productos_por_precio@, antes.lista()[j].id));
        let k0 = choose|k0: int|
            0 <= k0 < antes.productos_por_precio@.len() && antes.productos_por_precio@[k0].id
                == antes.lista()[j].id;
        assert(medio.productos_por_precio@[k0].id == id);
    }
    assert(desp.productos_por_precio@.len() == desp.lista().len());
    lemma_actualizar_ranking_entradas(antes, medio, desp, j, p);
    lemma_actualizar_ranking_completo(antes, medio, desp, j, p);
    assert(desp.ranking_bien());
}

/// Cada entrada del ranking reparado apunta a un registro vivo con su
/// precio actual.
#[verifier::rlimit(100)]
#[verifier::spinoff_prover]
proof fn lemma_actualizar_ranking_entradas(
    antes: InventarioManager,
    medio: InventarioManager,
    desp: InventarioManager,
    j: int,
    p: Producto,
)
    requires
        antes.wf(),
        0 <= j < antes.lista().len(),
        p.id == antes.lista()[j].id,
        p.precio == antes.lista()[j].precio,
        medio.lista() == antes.lista().update(j, p),
        medio.productos_por_precio == antes.productos_por_precio,
        desp.lista() == medio.lista(),
        medio.vive(p.id),
        medio.registro(p.id) == p@,
        ranking_sin_repetidos(desp.productos_por_precio@),
        exists|k: int|
            0 <= k < desp.productos_por_precio@.len()
                && (#[trigger] desp.productos_por_precio@[k]).id == p.id
                && desp.productos_por_precio@[k].precio == medio.registro(p.id).precio,
        forall|l: int|
            0 <= l < desp.productos_por_precio@.len()
                && (#[trigger] desp.productos_por_precio@[l]).id != p.id ==> exists|k: int|
                0 <= k < medio.productos_por_precio@.len() && medio.productos_por_precio@[k]
                    == desp.productos_por_precio@[l],
    ensures
        forall|k: int|
            0 <= k < desp.productos_por_precio@.len() ==> desp.vive(
                (#[trigger] desp.productos_por_precio@[k]).id,
            ) && desp.registro(desp.productos_por_precio@[k].id).precio
                == desp.productos_por_precio@[k].precio,
{
    let id = p.id;
    lemma_tras_actualizar(antes, desp, j, p);
    let rk0 = antes.productos_por_precio@;
    assert forall|k: int|
        0 <= k < desp.productos_por_precio@.len() implies desp.vive(
        (#[trigger] desp.productos_por_precio@[k]).id,
    ) && desp.registro(desp.productos_por_precio@[k].id).precio
        == desp.productos_por_precio@[k].precio by {
        let e = desp.productos_por_precio@[k];
        if e.id != id {
            let k0 = choose|k0: int| 0 <= k0 < rk0.len() && rk0[k0] == e;
            assert(antes.vive(rk0[k0].id));
            assert(desp.registro(e.id) == antes.registro(e.id));
        } else {
            assert(desp.registro(id) == p@);
            assert(desp.registro(id).precio == p.precio);
            let kf = choose|kf: int|
                0 <= kf < desp.productos_por_precio@.len()
                    && desp.productos_por_precio@[kf].id == p.id
                    && desp.productos_por_precio@[kf].precio == medio.registro(p.id).precio;
            if kf != k {
                assert(desp.productos_por_precio@[kf].id
                    != desp.productos_por_precio@[k].id);
                assert(false);
            }
            assert(e.precio == p.precio);
        }
    }
}

/// Todo registro vivo conserva una entrada en el ranking reparado.
#[verifier::rlimit(100)]
#[verifier::spinoff_prover]
proof fn lemma_actualizar_ranking_completo(
    antes: InventarioManager,
    medio: InventarioManager,
    desp: InventarioManager,
    j: int,
    p: Producto,
)
    requires
        antes.wf(),
        0 <= j < antes.lista().len(),
        p.id == antes.lista()[j].id,
        medio.lista() == antes.lista().update(j, p),
        medio.productos_por_precio == antes.productos_por_precio,
        desp.lista() == medio.lista(),
        exists|k: int|
            0 <= k < desp.productos_por_precio@.len()
                && (#[trigger] desp.productos_por_precio@[k]).id == p.id,
        forall|k: int|
            0 <= k < medio.productos_por_precio@.len()
                && (#[trigger] medio.productos_por_precio@[k]).id != p.id ==> exists|l: int|
                0 <= l < desp.productos_por_precio@.len() && desp.productos_por_precio@[l]
                    == medio.productos_por_precio@[k],
    ensures
        forall|i: int|
            0 <= i < desp.lista().len() ==> tiene_id(
                desp.productos_por_precio@,
                (#[trigger] desp.lista()[i]).id,
            ),
{
    let id = p.id;
    let rk0 = antes.productos_por_precio@;
    let rk = desp.productos_por_precio@;
    assert forall|i: int| 0 <= i < desp.lista().len() implies tiene_id(
        desp.productos_por_precio@,
        (#[trigger] desp.lista()[i]).id,
    ) by {
        if desp.lista()[i].id == id {
            let kf = choose|kf: int| 0 <= kf < rk.len() && rk[kf].id == id;
            assert(desp.productos_por_precio@[kf].id == desp.lista()[i].id);
        } else {
            assert(desp.lista()[i] == antes.lista()[i]);
            assert(tiene_id(antes.productos_por_precio@, antes.lista()[i].id));
            let k0 = choose|k0: int|
                0 <= k0 < antes.productos_por_precio@.len() && antes.productos_por_precio@[k0].id
                    == antes.lista()[i].id;
            assert(rk0[k0].id != id);
            let l = choose|l: int| 0 <= l < rk.len() && rk[l] == rk0[k0];
            assert(desp.productos_por_precio@[l].id == desp.lista()[i].id);
        }
    }
}

/// El conjunto de bajo stock reparado sigue fiel al mapa primario
/// tras la actualización.
#[verifier::rlimit(100)]
#[verifier::spinoff_prover]
proof fn lemma_actualizar_bajo(
    antes: InventarioManager,
    desp: InventarioManager,
    j: int,
    p: Producto,
    nuevo_stock: u32,
)
    requires
        antes.wf(),
        0 <= j < antes.lista().len(),
        p.id == antes.lista()[j].id,
        p.stock == nuevo_stock,
        desp.lista() == antes.lista().update(j, p),
        forall|k: int, l: int|
            0 <= k < l < desp.productos_bajo_stock@.len() ==> desp.productos_bajo_stock@[k]
                != desp.productos_bajo_stock@[l],
        forall|y: u32|
            desp.productos_bajo_stock@.contains(y) <==> (antes.productos_bajo_stock@.contains(y)
                && y != p.id) || (nuevo_stock < UMBRAL_BAJO_STOCK && y == p.id),
    ensures
        desp.bajo_stock_bien(),
{
    let id = p.id;
    antes.lemma_registro_en(j);
    lemma_tras_actualizar(antes, desp, j, p);
    let bs = desp.productos_bajo_stock@;
    assert forall|k: int|
        0 <= k < bs.len() implies desp.vive(#[trigger] bs[k]) && desp.registro(bs[k]).stock
            < UMBRAL_BAJO_STOCK by {
        assert(bs.contains(bs[k]));
        if bs[k] == id {
            assert(nuevo_stock < UMBRAL_BAJO_STOCK);
            assert(desp.registro(id) == p@);
        } else {
            assert(antes.productos_bajo_stock@.contains(bs[k]));
            let m = choose|m: int|
                0 <= m < antes.productos_bajo_stock@.len() && antes.productos_bajo_stock@[m]
                    == bs[k];
            assert(antes.vive(bs[k]));
            assert(desp.registro(bs[k]) == antes.registro(bs[k]));
        }
    }
    assert forall|i: int|
        0 <= i < desp.lista().len() && (#[trigger] desp.lista()[i]).stock
            < UMBRAL_BAJO_STOCK implies bs.contains(desp.lista()[i].id) by {
        if i == j {
            assert(desp.lista()[i] == p);
        } else {
            assert(desp.lista()[i] == antes.lista()[i]);
            assert(antes.productos_bajo_stock@.contains(antes.lista()[i].id));
            assert(antes.lista()[i].id != id);
        }
    }
}


/// Tras una inserción completa (contador, cubetas, ranking, bajo
/// stock y mapa primario), el gestor queda bien formado y su modelo
/// gana exactamente la entrada nueva.
#[verifier::spinoff_prover]
proof fn lemma_insertar_wf(antes: InventarioManager, desp: InventarioManager, p: Producto)
    requires
        antes.wf(),
        p.wf(),
        !antes.vive(p.id),
        p.id < u32::MAX,
        desp.lista() == antes.lista().push(p),
        desp.siguiente_id == if antes.siguiente_id > p.id + 1 {
            antes.siguiente_id
        } else {
            (p.id + 1) as u32
        },
        cubetas_bien(desp.productos_por_tag@),
        forall|tg: Seq<char>, x: u32|
            #[trigger] en_cubetas(desp.productos_por_tag@, tg, x) <==> en_cubetas(
                antes.productos_por_tag@,
                tg,
                x,
            ) || (x == p.id && conjunto_tags(p.tags@).contains(tg)),
        exists|k: int|
            0 <= k <= antes.productos_por_precio@.len() && desp.productos_por_precio@
                == antes.productos_por_precio@.insert(
                k,
                EntradaPrecio { precio: p.precio, id: p.id },
            ),
        ordenado_desc(desp.productos_por_precio@),
        forall|k: int, l: int|
            0 <= k < l < desp.productos_bajo_stock@.len() ==> desp.productos_bajo_stock@[k]
                != desp.productos_bajo_stock@[l],
        forall|y: u32|
            desp.productos_bajo_stock@.contains(y) <==> antes.productos_bajo_stock@.contains(y)
                || (p.stock < UMBRAL_BAJO_STOCK && y == p.id),
    ensures
        desp.wf(),
        desp.registros() == antes.registros().insert(p.id, p@),
{
    lemma_tras_empujar(antes, desp, p);
    let n = antes.lista().len() as int;
    assert forall|i: int|
        0 <= i < desp.lista().len() implies (#[trigger] desp.lista()[i]).wf()
            && desp.lista()[i].id < desp.siguiente_id by {
        if i < n {
            assert(desp.lista()[i] == antes.lista()[i]);
        } else {
            assert(desp.lista()[i] == p);
        }
    }
    lemma_insertar_tags(antes, desp, p);
    lemma_insertar_ranking(antes, desp, p);
    lemma_insertar_bajo(antes, desp, p);
    assert(desp.wf());
}

/// El índice por tag queda fiel al mapa primario tras la inserción.
#[verifier::rlimit(100)]
#[verifier::spinoff_prover]
proof fn lemma_insertar_tags(antes: InventarioManager, desp: InventarioManager, p: Producto)
    requires
        antes.wf(),
        !antes.vive(p.id),
        desp.lista() == antes.lista().push(p),
        cubetas_bien(desp.productos_por_tag@),
        forall|tg: Seq<char>, x: u32|
            #[trigger] en_cubetas(desp.productos_por_tag@, tg, x) <==> en_cubetas(
                antes.productos_por_tag@,
                tg,
                x,
            ) || (x == p.id && conjunto_tags(p.tags@).contains(tg)),
    ensures
        desp.tags_bien(),
{
    let id = p.id;
    lemma_tras_empujar(antes, desp, p);
    let n = antes.lista().len() as int;
    assert forall|tg: Seq<char>, x: u32| #[trigger]
        desp.en_indice_tags(tg, x) implies desp.vive(x) && desp.registro(x).tags.contains(tg) by {
        assert(en_cubetas(desp.productos_por_tag@, tg, x));
        if en_cubetas(antes.productos_por_tag@, tg, x) {
            assert(antes.en_indice_tags(tg, x));
            assert(antes.vive(x) && antes.registro(x).tags.contains(tg));
        } else {
            assert(x == id);
            assert(conjunto_tags(p.tags@).contains(tg));
            assert(desp.registro(id) == p@);
        }
    }
    assert forall|i: int, tg: Seq<char>|
        0 <= i < desp.lista().len() && #[trigger] desp.lista()[i]@.tags.contains(
            tg,
        ) implies desp.en_indice_tags(tg, desp.lista()[i].id) by {
        if i < n {
            assert(desp.lista()[i] == antes.lista()[i]);
            assert(antes.en_indice_tags(tg, antes.lista()[i].id));
            assert(en_cubetas(antes.productos_por_tag@, tg, antes.lista()[i].id));
            assert(en_cubetas(desp.productos_por_tag@, tg, desp.lista()[i].id));
        } else {
            assert(desp.lista()[i] == p);
            assert(p@.tags == conjunto_tags(p.tags@));
            assert(en_cubetas(desp.productos_por_tag@, tg, id));
        }
    }
}

/// El ranking queda fiel al mapa primario tras la inserción.
#[verifier::rlimit(100)]
#[verifier::spinoff_prover]
proof fn lemma_insertar_ranking(antes: InventarioManager, desp: InventarioManager, p: Producto)
    requires
        antes.wf(),
        !antes.vive(p.id),
        desp.lista() == antes.lista().push(p),
        exists|k: int|
            0 <= k <= antes.productos_por_precio@.len() && desp.productos_por_precio@
                == antes.productos_por_precio@.insert(
                k,
                EntradaPrecio { precio: p.precio, id: p.id },
            ),
        ordenado_desc(desp.productos_por_precio@),
    ensures
        desp.ranking_bien(),
{
    let id = p.id;
    lemma_tras_empujar(antes, desp, p);
    let n = antes.lista().len() as int;
    let rk0 = antes.productos_por_precio@;
    let rk = desp.productos_por_precio@;
    let e = EntradaPrecio { precio: p.precio, id: p.id };
    let kp = choose|kp: int| 0 <= kp <= rk0.len() && rk == rk0.insert(kp, e);
    rk0.insert_ensures(kp, e);
    assert(rk.len() == desp.lista().len());
    assert forall|k: int|
        0 <= k < rk.len() implies desp.vive((#[trigger] rk[k]).id) && desp.registro(
        rk[k].id,
    ).precio == rk[k].precio by {
        if k < kp {
            assert(rk[k] == rk0[k]);
            assert(antes.vive(rk[k].id));
        } else if k == kp {
            assert(rk[k] == e);
            assert(desp.registro(id) == p@);
        } else {
            assert(rk[k] == rk0[k - 1]);
            assert(antes.vive(rk[k].id));
        }
    }
    assert forall|k: int, l: int| 0 <= k < l < rk.len() implies rk[k].id != rk[l].id by {
        if k < kp {
            assert(rk[k] == rk0[k]);
            assert(antes.vive(rk0[k].id));
        } else if k == kp {
            assert(rk[k] == e);
        } else {
            assert(rk[k] == rk0[k - 1]);
            assert(antes.vive(rk0[k - 1].id));
        }
        if l < kp {
            assert(rk[l] == rk0[l]);
            assert(antes.vive(rk0[l].id));
        } else if l == kp {
            assert(rk[l] == e);
        } else {
            assert(rk[l] == rk0[l - 1]);
            assert(antes.vive(rk0[l - 1].id));
        }
    }
    assert forall|i: int| 0 <= i < desp.lista().len() implies tiene_id(
        desp.productos_por_precio@,
        (#[trigger] desp.lista()[i]).id,
    ) by {
        if i < n {
            assert(desp.lista()[i] == antes.lista()[i]);
            assert(tiene_id(rk0, antes.lista()[i].id));
            let k0 = choose|k0: int| 0 <= k0 < rk0.len() && rk0[k0].id == antes.lista()[i].id;
            if k0 < kp {
                assert(rk[k0] == rk0[k0]);
                assert(desp.productos_por_precio@[k0].id == desp.lista()[i].id);
            } else {
                assert(rk[k0 + 1] == rk0[k0]);
                assert(desp.productos_por_precio@[k0 + 1].id == desp.lista()[i].id);
            }
        } else {
            assert(rk[kp] == e);
            assert(desp.productos_por_precio@[kp].id == desp.lista()[i].id);
        }
    }
    assert(desp.ranking_bien());
}

/// El conjunto de bajo stock queda fiel al mapa primario tras la
/// inserción.
#[verifier::rlimit(100)]
#[verifier::spinoff_prover]
proof fn lemma_insertar_bajo(antes: InventarioManager, desp: InventarioManager, p: Producto)
    requires
        antes.wf(),
        !antes.vive(p.id),
        desp.lista() == antes.lista().push(p),
        forall|k: int, l: int|
            0 <= k < l < desp.productos_bajo_stock@.len() ==> desp.productos_bajo_stock@[k]
                != desp.productos_bajo_stock@[l],
        forall|y: u32|
            desp.productos_bajo_stock@.contains(y) <==> antes.productos_bajo_stock@.contains(y)
                || (p.stock < UMBRAL_BAJO_STOCK && y == p.id),
    ensures
        desp.bajo_stock_bien(),
{
    let id = p.id;
    lemma_tras_empujar(antes, desp, p);
    let n = antes.lista().len() as int;
    let bs = desp.productos_bajo_stock@;
    assert forall|k: int|
        0 <= k < bs.len() implies desp.vive(#[trigger] bs[k]) && desp.registro(bs[k]).stock
            < UMBRAL_BAJO_STOCK by {
        assert(bs.contains(bs[k]));
        if antes.productos_bajo_stock@.contains(bs[k]) {
            let m = choose|m: int|
                0 <= m < antes.productos_bajo_stock@.len() && antes.productos_bajo_stock@[m]
                    == bs[k];
            assert(antes.vive(bs[k]));
            assert(desp.registro(bs[k]) == antes.registro(bs[k]));
        } else {
            assert(bs[k] == id);
            assert(desp.registro(id) == p@);
        }
    }
    assert forall|i: int|
        0 <= i < desp.lista().len() && (#[trigger] desp.lista()[i]).stock
            < UMBRAL_BAJO_STOCK implies bs.contains(desp.lista()[i].id) by {
        if i < n {
            assert(desp.lista()[i] == antes.lista()[i]);
            assert(antes.productos_bajo_stock@.contains(antes.lista()[i].id));
        } else {
            assert(desp.lista()[i] == p);
        }
    }
}


/// Las vistas de una lista de registros, en su orden.
spec fn vistas_lista(l: Seq<Producto>) -> Seq<VistaProducto> {
    l.map_values(|p: Producto| p@)
}

/// Indexar las vistas de una lista sin ids repetidos conserva cada
/// registro bajo su id.
proof fn lemma_indexa_lista(l: Seq<Producto>)
    requires
        forall|i: int, j: int| 0 <= i < j < l.len() ==> l[i].id != l[j].id,
    ensures
        forall|x: u32|
            #[trigger] indexa(vistas_lista(l)).dom().contains(x) <==> exists|i: int|
                0 <= i < l.len() && l[i].id == x,
        forall|i: int|
            0 <= i < l.len() ==> indexa(vistas_lista(l))[(#[trigger] l[i]).id] == l[i]@,
    decreases l.len(),
{
    let vs = vistas_lista(l);
    if l.len() == 0 {
        assert(vs =~= Seq::<VistaProducto>::empty());
        assert forall|x: u32| !(#[trigger] indexa(vs).dom().contains(x)) by {}
    } else {
        assert forall|i: int, j: int|
            0 <= i < j < l.drop_last().len() implies l.drop_last()[i].id
            != l.drop_last()[j].id by {
            assert(l.drop_last()[i] == l[i]);
            assert(l.drop_last()[j] == l[j]);
        }
        lemma_indexa_lista(l.drop_last());
        let vs0 = vistas_lista(l.drop_last());
        assert(vs.drop_last() =~= vs0);
        assert(vs.last() == l.last()@);
        assert(indexa(vs) == indexa(vs0).insert(l.last()@.id, l.last()@));
        assert(l.last()@.id == l.last().id);
        assert forall|x: u32|
            #[trigger] indexa(vs).dom().contains(x) <==> exists|i: int|
                0 <= i < l.len() && l[i].id == x by {
            if indexa(vs).dom().contains(x) {
                if x == l.last().id {
                    assert(l[l.len() - 1].id == x);
                } else {
                    let i = choose|i: int|
                        0 <= i < l.drop_last().len() && l.drop_last()[i].id == x;
                    assert(l[i].id == x);
                }
            }
            if exists|i: int| 0 <= i < l.len() && l[i].id == x {
                let i = choose|i: int| 0 <= i < l.len() && l[i].id == x;
                if i < l.len() - 1 {
                    assert(l.drop_last()[i].id == x);
                    assert(indexa(vs0).dom().contains(x));
                }
            }
        }
        assert forall|i: int|
            0 <= i < l.len() implies indexa(vs)[(#[trigger] l[i]).id] == l[i]@ by {
            if i < l.len() - 1 {
                assert(l[i].id != l.last().id);
                assert(l.drop_last()[i] == l[i]);
                assert(indexa(vs0)[l[i].id] == l[i]@);
            }
        }
    }
}

impl InventarioManager {
    /// Ley de ida y vuelta del gestor: cargar lo que `guardar_inventario`
    /// produce reconstruye exactamente el modelo, cuando los registros
    /// vivos son limpios para el formato; junto con el contrato de
    /// `cargar_inventario`, el contador queda por encima de todo id
    /// cargado.
    pub proof fn lemma_guardar_cargar(self)
        requires
            self.wf(),
            forall|k: int|
                0 <= k < self.lista().len() ==> crate::formato::producto_limpio(
                    #[trigger] self.lista()[k],
                ),
        ensures
            indexa(crate::formato::decodificar(crate::formato::contenido_de(self.lista())))
                == self.registros(),
    {
        crate::formato::lemma_ida_y_vuelta(self.lista());
        lemma_indexa_lista(self.lista());
        let vs = vistas_lista(self.lista());
        assert(crate::formato::decodificar(crate::formato::contenido_de(self.lista())) == vs);
        let m = indexa(vs);
        assert forall|x: u32| #[trigger] m.dom().contains(x) <==> self.registros().dom().contains(
            x,
        ) by {
            if self.vive(x) {
                let i = choose|i: int|
                    0 <= i < self.lista().len() && self.lista()[i].id == x;
            }
        }
        assert forall|x: u32| m.dom().contains(x) implies #[trigger] m[x]
            == self.registros()[x] by {
            let i = choose|i: int| 0 <= i < self.lista().len() && self.lista()[i].id == x;
            assert(m[self.lista()[i].id] == self.lista()[i]@);
            self.lemma_registro_en(i);
        }
        assert(m =~= self.registros());
    }
}

} // verus!
