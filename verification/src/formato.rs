//! El formato de línea del catálogo: un registro por línea, campos
//! separados por comas en el orden `id,nombre,precio,stock,tags`,
//! con los tags unidos también por comas. Los campos numéricos que no
//! se pueden leer valen cero; las líneas con menos de cinco campos se
//! descartan.

use vstd::prelude::*;
use vstd::string::StrSliceExecFns;

use crate::producto::Producto;
use crate::producto::VistaProducto;
use crate::producto::conjunto_tags;

verus! {

// ---------------------------------------------------------------------------
// Dígitos y números decimales
// ---------------------------------------------------------------------------

/// ¿Es `c` un dígito decimal?
pub open spec fn es_digito(c: char) -> bool {
    48 <= c as u32 <= 57
}

/// Valor numérico de un dígito decimal.
pub open spec fn valor_digito(c: char) -> nat
    recommends
        es_digito(c),
{
    (c as u32 - 48) as nat
}

/// El carácter que escribe un dígito.
pub open spec fn char_digito(d: nat) -> char {
    if d == 0 {
        '0'
    } else if d == 1 {
        '1'
    } else if d == 2 {
        '2'
    } else if d == 3 {
        '3'
    } else if d == 4 {
        '4'
    } else if d == 5 {
        '5'
    } else if d == 6 {
        '6'
    } else if d == 7 {
        '7'
    } else if d == 8 {
        '8'
    } else {
        '9'
    }
}

/// Escritura decimal de un número, sin signo ni ceros a la izquierda.
pub open spec fn decimal(n: nat) -> Seq<char>
    decreases n,
{
    if n < 10 {
        seq![char_digito(n)]
    } else {
        decimal(n / 10).push(char_digito(n % 10))
    }
}

/// Valor del numeral `s` leído en base diez.
pub open spec fn valor_numeral(s: Seq<char>) -> nat
    decreases s.len(),
{
    if s.len() == 0 {
        0
    } else {
        valor_numeral(s.drop_last()) * 10 + valor_digito(s.last())
    }
}

/// ¿Es `s` un numeral no vacío hecho solo de dígitos?
pub open spec fn es_numeral(s: Seq<char>) -> bool {
    s.len() > 0 && forall|i: int| 0 <= i < s.len() ==> es_digito(s[i])
}

/// La parte numérica de un campo: un `+` inicial se descarta,
/// como hace la lectura de enteros de la biblioteca estándar.
pub open spec fn cuerpo_numeral(s: Seq<char>) -> Seq<char> {
    if s.len() > 0 && s[0] == '+' {
        s.skip(1)
    } else {
        s
    }
}

/// Lectura tolerante de un campo numérico: el valor si el campo es un
/// numeral que cabe en `u32`, y cero en cualquier otro caso.
pub open spec fn parsear_u32(s: Seq<char>) -> u32 {
    if es_numeral(cuerpo_numeral(s)) && valor_numeral(cuerpo_numeral(s)) <= u32::MAX {
        valor_numeral(cuerpo_numeral(s)) as u32
    } else {
        0
    }
}

fn char_de_digito(d: u32) -> (c: char)
    requires
        d < 10,
    ensures
        c == char_digito(d as nat),
{
    if d == 0 {
        '0'
    } else if d == 1 {
        '1'
    } else if d == 2 {
        '2'
    } else if d == 3 {
        '3'
    } else if d == 4 {
        '4'
    } else if d == 5 {
        '5'
    } else if d == 6 {
        '6'
    } else if d == 7 {
        '7'
    } else if d == 8 {
        '8'
    } else {
        '9'
    }
}

/// Añade a `salida` la escritura decimal de `n`.
#[verifier::spinoff_prover]
pub fn empujar_decimal(n: u32, salida: &mut Vec<char>)
    ensures
        final(salida)@ == old(salida)@ + decimal(n as nat),
    decreases n,
{
    if n >= 10 {
        empujar_decimal(n / 10, salida);
    }
    salida.push(char_de_digito(n % 10));
    proof {
        if n < 10 {
            assert(salida@ =~= old(salida)@ + decimal(n as nat));
        } else {
            assert(salida@ =~= old(salida)@ + decimal(n as nat));
        }
    }
}

/// Paso de lectura: añadir un dígito multiplica por diez y suma.
proof fn lemma_valor_paso(s: Seq<char>, k: int)
    requires
        0 <= k < s.len(),
    ensures
        valor_numeral(s.take(k + 1)) == valor_numeral(s.take(k)) * 10 + valor_digito(s[k]),
{
    assert(s.take(k + 1).drop_last() =~= s.take(k));
    assert(s.take(k + 1).last() == s[k]);
}

/// El valor de un numeral no baja al alargarlo con más dígitos.
proof fn lemma_valor_cota(s: Seq<char>, k: int)
    requires
        0 <= k <= s.len(),
    ensures
        valor_numeral(s) >= valor_numeral(s.take(k)),
    decreases s.len() - k,
{
    if k == s.len() {
        assert(s.take(k) =~= s);
    } else {
        lemma_valor_paso(s, k);
        lemma_valor_cota(s, k + 1);
    }
}

/// Lee un campo numérico como lo hace `parsear_u32`.
#[verifier::spinoff_prover]
pub fn parsear_u32_campo(s: &Vec<char>) -> (r: u32)
    ensures
        r == parsear_u32(s@),
{
    let ini: usize = if s.len() > 0 && s[0] == '+' {
        1
    } else {
        0
    };
    let ghost cuerpo = cuerpo_numeral(s@);
    proof {
        assert(cuerpo =~= s@.skip(ini as int));
    }
    if s.len() == ini {
        return 0;
    }
    let mut acc: u32 = 0;
    let mut i: usize = ini;
    while i < s.len()
        invariant
            ini <= i <= s.len(),
            s@.len() > ini,
            cuerpo == cuerpo_numeral(s@),
            cuerpo =~= s@.skip(ini as int),
            forall|k: int| 0 <= k < i - ini ==> es_digito(cuerpo[k]),
            acc == valor_numeral(cuerpo.take(i - ini)),
        decreases s.len() - i,
    {
        let c = s[i];
        let u = c as u32;
        if !(48 <= u && u <= 57) {
            proof {
                assert(cuerpo[i - ini] == s@[i as int]);
                assert(!es_digito(cuerpo[i - ini]));
                assert(!es_numeral(cuerpo));
            }
            return 0;
        }
        let d = u - 48;
        proof {
            lemma_valor_paso(cuerpo, i - ini);
        }
        let paso = match acc.checked_mul(10) {
            Some(m) => m.checked_add(d),
            None => None,
        };
        match paso {
            Some(v) => {
                acc = v;
            },
            None => {
                proof {
                    assert(valor_numeral(cuerpo.take(i - ini + 1)) > u32::MAX);
                    lemma_valor_cota(cuerpo, i - ini + 1);
                    assert(valor_numeral(cuerpo) > u32::MAX);
                }
                return 0;
            },
        }
        i += 1;
    }
    proof {
        assert(cuerpo.take(i - ini) =~= cuerpo);
        assert(es_numeral(cuerpo));
    }
    acc
}

// ---------------------------------------------------------------------------
// Partir, unir y recortar
// ---------------------------------------------------------------------------

/// Partición de `s` por el separador `sep`, al modo de `str::split`:
/// siempre hay al menos un campo, y los separadores contiguos o en los
/// extremos producen campos vacíos.
pub open spec fn dividir(s: Seq<char>, sep: char) -> Seq<Seq<char>>
    decreases s.len(),
{
    if s.len() == 0 {
        seq![Seq::<char>::empty()]
    } else if s[0] == sep {
        seq![Seq::<char>::empty()] + dividir(s.skip(1), sep)
    } else {
        let resto = dividir(s.skip(1), sep);
        seq![seq![s[0]] + resto[0]] + resto.skip(1)
    }
}

/// Toda partición tiene al menos un campo.
pub proof fn lemma_dividir_no_vacia(s: Seq<char>, sep: char)
    ensures
        dividir(s, sep).len() >= 1,
    decreases s.len(),
{
    if s.len() > 0 {
        lemma_dividir_no_vacia(s.skip(1), sep);
    }
}

/// Vista de una lista de campos como sucesiones de caracteres.
pub open spec fn vistas_campos(campos: Seq<Vec<char>>) -> Seq<Seq<char>> {
    campos.map_values(|v: Vec<char>| v@)
}

#[verifier::spinoff_prover]
fn dividir_desde(s: &Vec<char>, desde: usize, sep: char) -> (r: Vec<Vec<char>>)
    requires
        desde <= s.len(),
    ensures
        vistas_campos(r@) == dividir(s@.skip(desde as int), sep),
        r@.len() >= 1,
    decreases s.len() - desde,
{
    proof {
        lemma_dividir_no_vacia(s@.skip(desde as int), sep);
    }
    if desde == s.len() {
        let mut r: Vec<Vec<char>> = Vec::new();
        r.push(Vec::new());
        proof {
            assert(s@.skip(desde as int) =~= Seq::<char>::empty());
            assert(vistas_campos(r@) =~= dividir(s@.skip(desde as int), sep));
        }
        r
    } else {
        let c = s[desde];
        let mut resto = dividir_desde(s, desde + 1, sep);
        proof {
            assert(s@.skip(desde as int).len() > 0);
            assert(s@.skip(desde as int)[0] == s@[desde as int]);
            assert(s@.skip(desde as int).skip(1) =~= s@.skip(desde as int + 1));
        }
        if c == sep {
            resto.insert(0, Vec::new());
            proof {
                assert(vistas_campos(resto@) =~= dividir(s@.skip(desde as int), sep));
            }
            resto
        } else {
            let mut primera = resto.remove(0);
            primera.insert(0, c);
            let ghost primera_vista = primera@;
            resto.insert(0, primera);
            proof {
                let cola = dividir(s@.skip(desde as int + 1), sep);
                assert(primera_vista =~= seq![s@[desde as int]] + cola[0]);
                assert(vistas_campos(resto@) =~= seq![primera_vista] + cola.skip(1));
                assert(dividir(s@.skip(desde as int), sep) == seq![seq![s@[desde as int]] + cola[0]]
                    + cola.skip(1));
                assert(vistas_campos(resto@) =~= dividir(s@.skip(desde as int), sep));
            }
            resto
        }
    }
}

/// Parte `s` por `sep`.
#[verifier::spinoff_prover]
pub fn dividir_chars(s: &Vec<char>, sep: char) -> (r: Vec<Vec<char>>)
    ensures
        vistas_campos(r@) == dividir(s@, sep),
        r@.len() >= 1,
{
    let r = dividir_desde(s, 0, sep);
    proof {
        assert(s@.skip(0) =~= s@);
    }
    r
}

/// Lo que une `sep` entre los campos: la inversa de `dividir` cuando
/// ningún campo contiene el separador.
pub open spec fn unir(campos: Seq<Seq<char>>, sep: char) -> Seq<char>
    decreases campos.len(),
{
    if campos.len() == 0 {
        Seq::<char>::empty()
    } else if campos.len() == 1 {
        campos[0]
    } else {
        unir(campos.drop_last(), sep) + seq![sep] + campos.last()
    }
}

/// ¿Es `c` un blanco que el recorte elimina? El conjunto es el de la
/// propiedad White_Space de Unicode, el mismo que recorta
/// `str::trim`.
pub open spec fn es_blanco(c: char) -> bool {
    c == '\u{0009}' || c == '\u{000A}' || c == '\u{000B}' || c == '\u{000C}' || c == '\u{000D}'
        || c == '\u{0020}' || c == '\u{0085}' || c == '\u{00A0}' || c == '\u{1680}'
        || c == '\u{2000}' || c == '\u{2001}' || c == '\u{2002}' || c == '\u{2003}'
        || c == '\u{2004}' || c == '\u{2005}' || c == '\u{2006}' || c == '\u{2007}'
        || c == '\u{2008}' || c == '\u{2009}' || c == '\u{200A}' || c == '\u{2028}'
        || c == '\u{2029}' || c == '\u{202F}' || c == '\u{205F}' || c == '\u{3000}'
}

/// `s` sin blancos iniciales.
pub open spec fn recortar_inicio(s: Seq<char>) -> Seq<char>
    decreases s.len(),
{
    if s.len() > 0 && es_blanco(s[0]) {
        recortar_inicio(s.skip(1))
    } else {
        s
    }
}

/// `s` sin blancos finales.
pub open spec fn recortar_fin(s: Seq<char>) -> Seq<char>
    decreases s.len(),
{
    if s.len() > 0 && es_blanco(s.last()) {
        recortar_fin(s.drop_last())
    } else {
        s
    }
}

/// `s` sin blancos en ninguno de los dos extremos.
pub open spec fn recortar(s: Seq<char>) -> Seq<char> {
    recortar_fin(recortar_inicio(s))
}

/// Recorta los blancos de los extremos de `s`.
#[verifier::spinoff_prover]
pub fn recortar_chars(s: &Vec<char>) -> (r: Vec<char>)
    ensures
        r@ == recortar(s@),
{
    let mut a: usize = 0;
    proof {
        assert(s@.skip(0) =~= s@);
    }
    while a < s.len() && es_blanco_exec(s[a])
        invariant
            0 <= a <= s.len(),
            recortar_inicio(s@) == recortar_inicio(s@.skip(a as int)),
        decreases s.len() - a,
    {
        proof {
            assert(s@.skip(a as int)[0] == s@[a as int]);
            assert(s@.skip(a as int).skip(1) =~= s@.skip(a as int + 1));
        }
        a += 1;
    }
    proof {
        assert(recortar_inicio(s@.skip(a as int)) == s@.skip(a as int));
    }
    let mut b: usize = s.len();
    while b > a && es_blanco_exec(s[b - 1])
        invariant
            a <= b <= s.len(),
            recortar_inicio(s@) == s@.skip(a as int),
            recortar_fin(s@.skip(a as int)) == recortar_fin(s@.subrange(a as int, b as int)),
        decreases b,
    {
        proof {
            let t = s@.subrange(a as int, b as int);
            assert(t.last() == s@[b as int - 1]);
            assert(t.drop_last() =~= s@.subrange(a as int, b as int - 1));
        }
        b -= 1;
    }
    proof {
        let t = s@.subrange(a as int, b as int);
        if b == a {
            assert(t =~= Seq::<char>::empty());
        }
        assert(recortar_fin(t) == t);
    }
    let mut r: Vec<char> = Vec::new();
    let mut j: usize = a;
    while j < b
        invariant
            a <= j <= b <= s.len(),
            r@ =~= s@.subrange(a as int, j as int),
        decreases b - j,
    {
        r.push(s[j]);
        proof {
            assert(r@ =~= s@.subrange(a as int, j as int + 1));
        }
        j += 1;
    }
    proof {
        assert(r@ =~= s@.subrange(a as int, b as int));
    }
    r
}

fn es_blanco_exec(c: char) -> (r: bool)
    ensures
        r == es_blanco(c),
{
    c == '\u{0009}' || c == '\u{000A}' || c == '\u{000B}' || c == '\u{000C}' || c == '\u{000D}'
        || c == '\u{0020}' || c == '\u{0085}' || c == '\u{00A0}' || c == '\u{1680}'
        || c == '\u{2000}' || c == '\u{2001}' || c == '\u{2002}' || c == '\u{2003}'
        || c == '\u{2004}' || c == '\u{2005}' || c == '\u{2006}' || c == '\u{2007}'
        || c == '\u{2008}' || c == '\u{2009}' || c == '\u{200A}' || c == '\u{2028}'
        || c == '\u{2029}' || c == '\u{202F}' || c == '\u{205F}' || c == '\u{3000}'
}

// ---------------------------------------------------------------------------
// Puentes entre `String` y `Vec<char>`
// ---------------------------------------------------------------------------

/// Los caracteres de `s`, en orden.
#[verifier::spinoff_prover]
pub fn texto_a_chars(s: &str) -> (r: Vec<char>)
    ensures
        r@ == s@,
{
    let n = s.unicode_len();
    let mut r: Vec<char> = Vec::new();
    let mut i: usize = 0;
    while i < n
        invariant
            0 <= i <= n,
            n == s@.len(),
            r@ =~= s@.take(i as int),
        decreases n - i,
    {
        r.push(s.get_char(i));
        proof {
            assert(r@ =~= s@.take(i as int + 1));
        }
        i += 1;
    }
    proof {
        assert(r@ =~= s@);
    }
    r
}

/// Se apoya en `String: FromIterator<char>` (vía `Iterator::collect`):
/// la cadena formada exactamente por los caracteres dados, en orden.
#[verifier::external_body]
pub fn texto_desde_chars(v: &Vec<char>) -> (r: String)
    ensures
        r@ == v@,
{
    v.iter().collect()
}

// ---------------------------------------------------------------------------
// Codificación de registros
// ---------------------------------------------------------------------------

/// Vistas de una lista de textos.
pub open spec fn vistas_texto(ts: Seq<String>) -> Seq<Seq<char>> {
    ts.map_values(|t: String| t@)
}

/// La línea que escribe un registro: los cuatro campos fijos y los
/// tags unidos por comas.
pub open spec fn linea_de(p: Producto) -> Seq<char> {
    decimal(p.id as nat) + seq![','] + p.nombre@ + seq![','] + decimal(p.precio as nat)
        + seq![','] + decimal(p.stock as nat) + seq![','] + unir(vistas_texto(p.tags@), ',')
}

/// El contenido completo: una línea por registro, cada una terminada
/// en salto de línea.
pub open spec fn contenido_de(ps: Seq<Producto>) -> Seq<char>
    decreases ps.len(),
{
    if ps.len() == 0 {
        Seq::<char>::empty()
    } else {
        contenido_de(ps.drop_last()) + linea_de(ps.last()) + seq!['\n']
    }
}

/// Añade a `salida` los caracteres de `t`.
#[verifier::spinoff_prover]
fn empujar_texto(t: &str, salida: &mut Vec<char>)
    ensures
        final(salida)@ == old(salida)@ + t@,
{
    let n = t.unicode_len();
    let mut i: usize = 0;
    while i < n
        invariant
            0 <= i <= n,
            n == t@.len(),
            salida@ =~= old(salida)@ + t@.take(i as int),
        decreases n - i,
    {
        salida.push(t.get_char(i));
        proof {
            assert(salida@ =~= old(salida)@ + t@.take(i as int + 1));
        }
        i += 1;
    }
    proof {
        assert(salida@ =~= old(salida)@ + t@);
    }
}

/// Añade a `salida` la línea de `p` y su salto final.
#[verifier::spinoff_prover]
fn empujar_linea(p: &Producto, salida: &mut Vec<char>)
    ensures
        final(salida)@ == old(salida)@ + linea_de(*p) + seq!['\n'],
{
    empujar_decimal(p.id, salida);
    salida.push(',');
    empujar_texto(p.nombre.as_str(), salida);
    salida.push(',');
    empujar_decimal(p.precio, salida);
    salida.push(',');
    empujar_decimal(p.stock, salida);
    salida.push(',');
    let ghost base = salida@;
    let mut j: usize = 0;
    while j < p.tags.len()
        invariant
            0 <= j <= p.tags@.len(),
            salida@ == base + unir(vistas_texto(p.tags@).take(j as int), ','),
        decreases p.tags.len() - j,
    {
        if j > 0 {
            salida.push(',');
        }
        empujar_texto(p.tags[j].as_str(), salida);
        proof {
            let vistas = vistas_texto(p.tags@);
            assert(vistas.take(j as int + 1).drop_last() =~= vistas.take(j as int));
            assert(vistas.take(j as int + 1).last() == p.tags@[j as int]@);
            if j == 0 {
                assert(unir(vistas.take(1), ',') == vistas[0]);
                assert(salida@ =~= base + unir(vistas.take(j as int + 1), ','));
            } else {
                assert(salida@ =~= base + unir(vistas.take(j as int + 1), ','));
            }
        }
        j += 1;
    }
    salida.push('\n');
    proof {
        assert(vistas_texto(p.tags@).take(p.tags@.len() as int) =~= vistas_texto(p.tags@));
        assert(salida@ =~= old(salida)@ + linea_de(*p) + seq!['\n']);
    }
}

/// Codifica los registros, una línea por registro y en su orden.
#[verifier::spinoff_prover]
pub fn codificar_productos(productos: &Vec<Producto>) -> (r: String)
    ensures
        r@ == contenido_de(productos@),
{
    let mut salida: Vec<char> = Vec::new();
    let mut i: usize = 0;
    while i < productos.len()
        invariant
            0 <= i <= productos@.len(),
            salida@ == contenido_de(productos@.take(i as int)),
        decreases productos.len() - i,
    {
        empujar_linea(&productos[i], &mut salida);
        proof {
            assert(productos@.take(i as int + 1).drop_last() =~= productos@.take(i as int));
            assert(productos@.take(i as int + 1).last() == productos@[i as int]);
        }
        i += 1;
    }
    proof {
        assert(productos@.take(productos@.len() as int) =~= productos@);
    }
    texto_desde_chars(&salida)
}

// ---------------------------------------------------------------------------
// Decodificación de registros
// ---------------------------------------------------------------------------

/// Una línea sin su retorno de carro final, si lo lleva.
pub open spec fn limpiar_linea(l: Seq<char>) -> Seq<char> {
    if l.len() > 0 && l.last() == '\r' {
        l.drop_last()
    } else {
        l
    }
}

/// Las líneas del contenido: partido por saltos de línea, sin la cola
/// vacía que deja un salto final.
pub open spec fn lineas_de(s: Seq<char>) -> Seq<Seq<char>> {
    let partes = dividir(s, '\n');
    if partes.last().len() == 0 {
        partes.drop_last()
    } else {
        partes
    }
}

/// El conjunto de tags que dejan los campos a partir del quinto:
/// cada uno recortado, y descartados los vacíos.
pub open spec fn tags_de(campos: Seq<Seq<char>>) -> Set<Seq<char>> {
    Set::new(
        |t: Seq<char>|
            t.len() > 0 && exists|i: int| 0 <= i < campos.len() && recortar(campos[i]) == t,
    )
}

/// Lectura de una línea: descartada si tiene menos de cinco campos;
/// si no, los numéricos se leen con tolerancia y el resto de campos
/// forma el conjunto de tags.
pub open spec fn decodificar_linea(l: Seq<char>) -> Option<VistaProducto> {
    let partes = dividir(l, ',');
    if partes.len() >= 5 {
        Some(
            VistaProducto {
                id: parsear_u32(partes[0]),
                nombre: partes[1],
                precio: parsear_u32(partes[2]),
                stock: parsear_u32(partes[3]),
                tags: tags_de(partes.skip(4)),
            },
        )
    } else {
        None
    }
}

/// Lectura de una lista de líneas, descartando las que no valen.
pub open spec fn decodifica_lineas(ls: Seq<Seq<char>>) -> Seq<VistaProducto>
    decreases ls.len(),
{
    if ls.len() == 0 {
        Seq::<VistaProducto>::empty()
    } else {
        decodifica_lineas(ls.drop_last()) + (match decodificar_linea(limpiar_linea(ls.last())) {
            Some(v) => seq![v],
            None => Seq::<VistaProducto>::empty(),
        })
    }
}

/// Lectura de un contenido completo.
pub open spec fn decodificar(s: Seq<char>) -> Seq<VistaProducto> {
    decodifica_lineas(lineas_de(s))
}

/// ¿Contiene la lista un texto con la vista de `t`?
pub fn contiene_texto(v: &Vec<String>, t: &String) -> (r: bool)
    ensures
        r == exists|i: int| 0 <= i < v@.len() && v@[i]@ == t@,
{
    let mut i: usize = 0;
    while i < v.len()
        invariant
            0 <= i <= v@.len(),
            forall|k: int| 0 <= k < i ==> v@[k]@ != t@,
        decreases v.len() - i,
    {
        if v[i] == *t {
            return true;
        }
        i += 1;
    }
    false
}

#[verifier::rlimit(50)]
#[verifier::spinoff_prover]
fn decodificar_linea_exec(linea: &Vec<char>) -> (r: Option<Producto>)
    ensures
        match r {
            Some(p) => decodificar_linea(linea@) == Some(p@) && p.wf(),
            None => decodificar_linea(linea@) is None,
        },
{
    let partes = dividir_chars(linea, ',');
    if partes.len() < 5 {
        return None;
    }
    let ghost vistas = vistas_campos(partes@);
    let id = parsear_u32_campo(&partes[0]);
    let nombre = texto_desde_chars(&partes[1]);
    let precio = parsear_u32_campo(&partes[2]);
    let stock = parsear_u32_campo(&partes[3]);
    let mut tags: Vec<String> = Vec::new();
    let mut j: usize = 4;
    while j < partes.len()
        invariant
            4 <= j <= partes@.len(),
            vistas == vistas_campos(partes@),
            vistas.len() == partes@.len(),
            forall|i: int, k: int| 0 <= i < k < tags@.len() ==> tags@[i]@ != tags@[k]@,
            forall|k: int|
                0 <= k < tags@.len() ==> tags@[k]@.len() > 0 && exists|i: int|
                    4 <= i < j && recortar(vistas[i]) == tags@[k]@,
            forall|i: int|
                4 <= i < j && recortar(vistas[i]).len() > 0 ==> exists|k: int|
                    0 <= k < tags@.len() && tags@[k]@ == recortar(vistas[i]),
        decreases partes.len() - j,
    {
        let ghost tags_pre = tags@;
        let recortado = recortar_chars(&partes[j]);
        proof {
            assert(vistas[j as int] == partes@[j as int]@);
            assert(recortado@ == recortar(vistas[j as int]));
        }
        if recortado.len() > 0 {
            let texto = texto_desde_chars(&recortado);
            if !contiene_texto(&tags, &texto) {
                tags.push(texto);
                proof {
                    assert(tags@[tags@.len() - 1]@ == recortar(vistas[j as int]));
                }
            }
            proof {
                assert(exists|k: int|
                    0 <= k < tags@.len() && tags@[k]@ == recortar(vistas[j as int]));
            }
        }
        proof {
            assert forall|k: int| 0 <= k < tags@.len() implies tags@[k]@.len() > 0 && exists|i: int|
                4 <= i < j + 1 && recortar(vistas[i]) == tags@[k]@ by {
                if k < tags_pre.len() {
                    assert(tags@[k] == tags_pre[k]);
                    let i0 = choose|i0: int| 4 <= i0 < j && recortar(vistas[i0]) == tags_pre[k]@;
                    assert(recortar(vistas[i0]) == tags@[k]@);
                } else {
                    assert(tags@[k]@ == recortado@);
                    assert(recortar(vistas[j as int]) == tags@[k]@);
                }
            }
            assert forall|i: int|
                4 <= i < j + 1 && recortar(vistas[i]).len() > 0 implies exists|k: int|
                0 <= k < tags@.len() && tags@[k]@ == recortar(vistas[i]) by {
                if i < j {
                    let k0 = choose|k0: int|
                        0 <= k0 < tags_pre.len() && tags_pre[k0]@ == recortar(vistas[i]);
                    assert(tags@[k0] == tags_pre[k0]);
                } else {
                    assert(recortado@.len() > 0);
                    let k1 = choose|k1: int|
                        0 <= k1 < tags@.len() && tags@[k1]@ == recortado@;
                    assert(tags@[k1]@ == recortar(vistas[i]));
                }
            }
        }
        j += 1;
    }
    let p = Producto { id, nombre, precio, stock, tags };
    proof {
        let campos = vistas.skip(4);
        assert forall|t: Seq<char>| #[trigger] conjunto_tags(p.tags@).contains(t) implies tags_de(
            campos,
        ).contains(t) by {
            let k = choose|k: int| 0 <= k < p.tags@.len() && p.tags@[k]@ == t;
            let i = choose|i: int| 4 <= i < vistas.len() && recortar(vistas[i]) == p.tags@[k]@;
            assert(campos[i - 4] == vistas[i]);
        }
        assert forall|t: Seq<char>| #[trigger] tags_de(campos).contains(t) implies conjunto_tags(
            p.tags@,
        ).contains(t) by {
            let i = choose|i: int| 0 <= i < campos.len() && recortar(campos[i]) == t;
            assert(campos[i] == vistas[i + 4]);
            assert(recortar(vistas[i + 4]).len() > 0);
        }
        assert(conjunto_tags(p.tags@) =~= tags_de(campos));
        assert(p@ == decodificar_linea(linea@).unwrap());
    }
    Some(p)
}

#[verifier::spinoff_prover]
fn limpiar_linea_exec(l: &Vec<char>) -> (r: Vec<char>)
    ensures
        r@ == limpiar_linea(l@),
{
    let mut fin = l.len();
    if fin > 0 && l[fin - 1] == '\r' {
        fin -= 1;
    }
    let mut r: Vec<char> = Vec::new();
    let mut i: usize = 0;
    while i < fin
        invariant
            0 <= i <= fin <= l@.len(),
            r@ =~= l@.take(i as int),
        decreases fin - i,
    {
        r.push(l[i]);
        proof {
            assert(r@ =~= l@.take(i as int + 1));
        }
        i += 1;
    }
    proof {
        if l@.len() > 0 && l@.last() == '\r' && fin == l@.len() - 1 {
            assert(r@ =~= l@.drop_last());
        } else {
            assert(r@ =~= l@);
        }
    }
    r
}

/// Decodifica un contenido completo: una lectura por línea válida,
/// en el orden del texto.
#[verifier::spinoff_prover]
pub fn decodificar_productos(contenido: &str) -> (r: Vec<Producto>)
    ensures
        r@.map_values(|p: Producto| p@) == decodificar(contenido@),
        forall|k: int| 0 <= k < r@.len() ==> (#[trigger] r@[k]).wf(),
{
    let chars = texto_a_chars(contenido);
    let mut lineas = dividir_chars(&chars, '\n');
    proof {
        assert(vistas_campos(lineas@).last() == lineas@.last()@);
    }
    if lineas[lineas.len() - 1].len() == 0 {
        lineas.pop();
    }
    proof {
        assert(vistas_campos(lineas@) =~= lineas_de(contenido@));
    }
    let ghost ls = lineas_de(contenido@);
    let mut r: Vec<Producto> = Vec::new();
    let mut i: usize = 0;
    while i < lineas.len()
        invariant
            0 <= i <= lineas@.len(),
            vistas_campos(lineas@) == ls,
            r@.map_values(|p: Producto| p@) == decodifica_lineas(ls.take(i as int)),
            forall|k: int| 0 <= k < r@.len() ==> (#[trigger] r@[k]).wf(),
        decreases lineas.len() - i,
    {
        let limpia = limpiar_linea_exec(&lineas[i]);
        proof {
            assert(ls.take(i as int + 1).drop_last() =~= ls.take(i as int));
            assert(ls.take(i as int + 1).last() == lineas@[i as int]@);
        }
        match decodificar_linea_exec(&limpia) {
            Some(p) => {
                r.push(p);
                proof {
                    assert(r@.map_values(|p: Producto| p@) =~= decodifica_lineas(
                        ls.take(i as int + 1),
                    ));
                }
            },
            None => {
                proof {
                    assert(r@.map_values(|p: Producto| p@) =~= decodifica_lineas(
                        ls.take(i as int + 1),
                    ));
                }
            },
        }
        i += 1;
    }
    proof {
        assert(ls.take(ls.len() as int) =~= ls);
    }
    r
}


// ---------------------------------------------------------------------------
// Ley de ida y vuelta
// ---------------------------------------------------------------------------

/// Un tag que el formato conserva tal cual: no vacío, sin coma ni
/// salto de línea, y sin blancos en los extremos.
pub open spec fn tag_limpio(t: Seq<char>) -> bool {
    &&& t.len() > 0
    &&& forall|j: int| 0 <= j < t.len() ==> t[j] != ',' && t[j] != '\n'
    &&& !es_blanco(t[0])
    &&& !es_blanco(t.last())
}

/// Un registro que el formato conserva tal cual: nombre sin coma ni
/// salto de línea, y todos sus tags limpios.
pub open spec fn producto_limpio(p: Producto) -> bool {
    &&& forall|i: int| 0 <= i < p.nombre@.len() ==> p.nombre@[i] != ',' && p.nombre@[i] != '\n'
    &&& forall|k: int| 0 <= k < p.tags@.len() ==> tag_limpio((#[trigger] p.tags@[k])@)
}

/// La escritura decimal es un numeral de dígitos con su valor.
proof fn lemma_decimal_digitos(n: nat)
    ensures
        es_numeral(decimal(n)),
        valor_numeral(decimal(n)) == n,
    decreases n,
{
    if n < 10 {
        assert(decimal(n) == seq![char_digito(n)]);
        assert(decimal(n).last() == char_digito(n));
        assert(decimal(n).drop_last() =~= Seq::<char>::empty());
        assert(valor_numeral(decimal(n).drop_last()) == 0);
        assert(es_digito(char_digito(n)));
        assert(valor_digito(char_digito(n)) == n);
        assert(valor_numeral(decimal(n)) == valor_numeral(decimal(n).drop_last()) * 10
            + valor_digito(decimal(n).last()));
    } else {
        lemma_decimal_digitos(n / 10);
        assert(decimal(n).drop_last() =~= decimal(n / 10));
        assert(decimal(n).last() == char_digito(n % 10));
        assert(es_digito(char_digito(n % 10)));
        assert(valor_digito(char_digito(n % 10)) == n % 10);
        assert(valor_numeral(decimal(n)) == valor_numeral(decimal(n).drop_last()) * 10
            + valor_digito(decimal(n).last()));
        assert(valor_numeral(decimal(n)) == (n / 10) * 10 + n % 10);
        assert(n == (n / 10) * 10 + n % 10);
        assert forall|i: int| 0 <= i < decimal(n).len() implies es_digito(decimal(n)[i]) by {
            if i < decimal(n / 10).len() {
                assert(decimal(n)[i] == decimal(n / 10)[i]);
            }
        }
    }
}

/// Leer una escritura decimal devuelve el número escrito.
proof fn lemma_parsear_decimal(n: u32)
    ensures
        parsear_u32(decimal(n as nat)) == n,
{
    lemma_decimal_digitos(n as nat);
    assert(es_digito(decimal(n as nat)[0]));
    assert(decimal(n as nat)[0] != '+');
    assert(cuerpo_numeral(decimal(n as nat)) == decimal(n as nat));
}

/// Un texto sin el separador es un solo campo.
proof fn lemma_dividir_sin_sep(x: Seq<char>, sep: char)
    requires
        forall|i: int| 0 <= i < x.len() ==> x[i] != sep,
    ensures
        dividir(x, sep) == seq![x],
    decreases x.len(),
{
    if x.len() == 0 {
        assert(x =~= Seq::<char>::empty());
        assert(dividir(x, sep) =~= seq![x]);
    } else {
        lemma_dividir_sin_sep(x.skip(1), sep);
        let resto = dividir(x.skip(1), sep);
        assert(x[0] != sep);
        assert(dividir(x, sep) == seq![seq![x[0]] + resto[0]] + resto.skip(1));
        assert(resto[0] == x.skip(1));
        assert(seq![x[0]] + resto[0] =~= x);
        assert(resto.skip(1) =~= Seq::<Seq<char>>::empty());
        assert(resto.skip(1).len() == 0);
        assert(dividir(x, sep).len() == 1);
        assert(dividir(x, sep)[0] == seq![x[0]] + resto[0]);
        assert(dividir(x, sep)[0] == x);
        assert(dividir(x, sep) =~= seq![x]);
    }
}

/// Partir por el separador corta primero el prefijo que no lo lleva.
proof fn lemma_dividir_prefijo(x: Seq<char>, y: Seq<char>, sep: char)
    requires
        forall|i: int| 0 <= i < x.len() ==> x[i] != sep,
    ensures
        dividir(x + seq![sep] + y, sep) == seq![x] + dividir(y, sep),
    decreases x.len(),
{
    let s = x + seq![sep] + y;
    if x.len() == 0 {
        assert(s.len() > 0);
        assert(s[0] == sep);
        assert(dividir(s, sep) == seq![Seq::<char>::empty()] + dividir(s.skip(1), sep));
        assert(s.skip(1) =~= y);
        assert(s.skip(1) == y);
        assert(x == Seq::<char>::empty());
        assert(dividir(s, sep) =~= seq![x] + dividir(y, sep));
    } else {
        lemma_dividir_prefijo(x.skip(1), y, sep);
        assert(s[0] == x[0]);
        assert(s[0] != sep);
        let resto = dividir(s.skip(1), sep);
        assert(dividir(s, sep) == seq![seq![s[0]] + resto[0]] + resto.skip(1));
        assert(s.skip(1) =~= x.skip(1) + seq![sep] + y);
        assert(s.skip(1) == x.skip(1) + seq![sep] + y);
        assert(resto == seq![x.skip(1)] + dividir(y, sep));
        assert(resto[0] == x.skip(1));
        assert(seq![s[0]] + resto[0] =~= x);
        assert(resto.skip(1) =~= dividir(y, sep));
        assert(dividir(s, sep) =~= seq![x] + dividir(y, sep));
    }
}

/// Unir varios campos empieza por el primero y un separador.
proof fn lemma_unir_cabeza(ts: Seq<Seq<char>>, sep: char)
    requires
        ts.len() >= 2,
    ensures
        unir(ts, sep) == ts[0] + seq![sep] + unir(ts.skip(1), sep),
    decreases ts.len(),
{
    if ts.len() == 2 {
        assert(ts.drop_last() =~= seq![ts[0]]);
        assert(unir(ts.drop_last(), sep) == ts[0]);
        assert(ts.skip(1) =~= seq![ts[1]]);
        assert(unir(ts.skip(1), sep) == ts[1]);
    } else {
        lemma_unir_cabeza(ts.drop_last(), sep);
        assert(ts.drop_last()[0] == ts[0]);
        assert(ts.drop_last().skip(1) =~= ts.skip(1).drop_last());
        assert(ts.skip(1).last() == ts.last());
        assert(ts.skip(1).len() >= 2);
        assert(unir(ts.skip(1), sep) == unir(ts.skip(1).drop_last(), sep) + seq![sep]
            + ts.last());
        assert(unir(ts, sep) == unir(ts.drop_last(), sep) + seq![sep] + ts.last());
        assert(unir(ts, sep) =~= ts[0] + seq![sep] + unir(ts.skip(1), sep));
    }
}

/// Partir lo unido devuelve los campos, si ninguno lleva el separador.
proof fn lemma_dividir_unir(ts: Seq<Seq<char>>, sep: char)
    requires
        ts.len() >= 1,
        forall|k: int, j: int| 0 <= k < ts.len() && 0 <= j < ts[k].len() ==> ts[k][j] != sep,
    ensures
        dividir(unir(ts, sep), sep) == ts,
    decreases ts.len(),
{
    if ts.len() == 1 {
        lemma_dividir_sin_sep(ts[0], sep);
        assert(dividir(unir(ts, sep), sep) =~= ts);
    } else {
        lemma_unir_cabeza(ts, sep);
        lemma_dividir_unir(ts.skip(1), sep);
        lemma_dividir_prefijo(ts[0], unir(ts.skip(1), sep), sep);
        assert(dividir(unir(ts, sep), sep) =~= ts);
    }
}

/// Los caracteres de lo unido vienen de los campos o del separador.
proof fn lemma_unir_sin(ts: Seq<Seq<char>>, sep: char, malo: char)
    requires
        sep != malo,
        forall|k: int, j: int| 0 <= k < ts.len() && 0 <= j < ts[k].len() ==> ts[k][j] != malo,
    ensures
        forall|i: int| 0 <= i < unir(ts, sep).len() ==> unir(ts, sep)[i] != malo,
    decreases ts.len(),
{
    if ts.len() >= 2 {
        lemma_unir_sin(ts.drop_last(), sep, malo);
        assert forall|i: int| 0 <= i < unir(ts, sep).len() implies unir(ts, sep)[i] != malo by {
            let u0 = unir(ts.drop_last(), sep);
            if i < u0.len() {
                assert(unir(ts, sep)[i] == u0[i]);
            } else if i == u0.len() {
                assert(unir(ts, sep)[i] == sep);
            } else {
                assert(unir(ts, sep)[i] == ts.last()[i - u0.len() - 1]);
            }
        }
    } else if ts.len() == 1 {
        assert forall|i: int| 0 <= i < unir(ts, sep).len() implies unir(ts, sep)[i] != malo by {
            assert(unir(ts, sep)[i] == ts[0][i]);
        }
    }
}

/// Un texto sin blancos en los extremos no cambia al recortarlo.
proof fn lemma_recortar_limpio(t: Seq<char>)
    requires
        t.len() == 0 || (!es_blanco(t[0]) && !es_blanco(t.last())),
    ensures
        recortar(t) == t,
{
    assert(recortar_inicio(t) == t);
    assert(recortar_fin(t) == t);
}


/// La línea de un registro limpio se decodifica de vuelta a su vista:
/// no lleva saltos de línea ni retorno final, y sus campos vuelven
/// enteros.
#[verifier::spinoff_prover]
#[verifier::rlimit(100)]
proof fn lemma_linea_ida_y_vuelta(p: Producto)
    requires
        producto_limpio(p),
    ensures
        linea_de(p).len() > 0,
        forall|i: int| 0 <= i < linea_de(p).len() ==> linea_de(p)[i] != '\n',
        limpiar_linea(linea_de(p)) == linea_de(p),
        decodificar_linea(linea_de(p)) == Some(p@),
{
    let d1 = decimal(p.id as nat);
    let d2 = decimal(p.precio as nat);
    let d3 = decimal(p.stock as nat);
    let nom = p.nombre@;
    let ts = vistas_texto(p.tags@);
    let ut = unir(ts, ',');
    let coma = seq![','];
    let linea = linea_de(p);
    lemma_decimal_digitos(p.id as nat);
    lemma_decimal_digitos(p.precio as nat);
    lemma_decimal_digitos(p.stock as nat);
    lemma_parsear_decimal(p.id);
    lemma_parsear_decimal(p.precio);
    lemma_parsear_decimal(p.stock);
    assert forall|i: int| 0 <= i < d1.len() implies d1[i] != ',' && d1[i] != '\n' by {
        assert(es_digito(d1[i]));
    }
    assert forall|i: int| 0 <= i < d2.len() implies d2[i] != ',' && d2[i] != '\n' by {
        assert(es_digito(d2[i]));
    }
    assert forall|i: int| 0 <= i < d3.len() implies d3[i] != ',' && d3[i] != '\n' by {
        assert(es_digito(d3[i]));
    }
    assert forall|k: int, j: int|
        0 <= k < ts.len() && 0 <= j < ts[k].len() implies ts[k][j] != ',' && ts[k][j]
        != '\n' by {
        assert(ts[k] == p.tags@[k]@);
        assert(tag_limpio(p.tags@[k]@));
    }
    lemma_unir_sin(ts, ',', '\n');
    // reagrupar la concatenación para cortar campo a campo
    let r3 = d3 + coma + ut;
    let r2 = d2 + coma + r3;
    let r1 = nom + coma + r2;
    assert(linea =~= d1 + coma + r1);
    lemma_dividir_prefijo(d1, r1, ',');
    lemma_dividir_prefijo(nom, r2, ',');
    lemma_dividir_prefijo(d2, r3, ',');
    lemma_dividir_prefijo(d3, ut, ',');
    let partes = dividir(linea, ',');
    assert(partes == seq![d1] + (seq![nom] + (seq![d2] + (seq![d3] + dividir(ut, ',')))));
    // sin saltos de línea
    assert forall|i: int| 0 <= i < r3.len() implies r3[i] != '\n' by {
        if i < d3.len() {
            assert(r3[i] == d3[i]);
        } else if i == d3.len() {
            assert(r3[i] == ',');
        } else {
            assert(r3[i] == ut[i - d3.len() - 1]);
        }
    }
    assert forall|i: int| 0 <= i < r2.len() implies r2[i] != '\n' by {
        if i < d2.len() {
            assert(r2[i] == d2[i]);
        } else if i == d2.len() {
            assert(r2[i] == ',');
        } else {
            assert(r2[i] == r3[i - d2.len() - 1]);
        }
    }
    assert forall|i: int| 0 <= i < r1.len() implies r1[i] != '\n' by {
        if i < nom.len() {
            assert(r1[i] == nom[i]);
        } else if i == nom.len() {
            assert(r1[i] == ',');
        } else {
            assert(r1[i] == r2[i - nom.len() - 1]);
        }
    }
    assert forall|i: int| 0 <= i < linea.len() implies linea[i] != '\n' by {
        if i < d1.len() {
            assert(linea[i] == d1[i]);
        } else if i == d1.len() {
            assert(linea[i] == ',');
        } else {
            assert(linea[i] == r1[i - d1.len() - 1]);
        }
    }
    // sin retorno de carro al final
    if ts.len() == 0 {
        assert(ut =~= Seq::<char>::empty());
        assert(linea.last() == ',');
        assert(limpiar_linea(linea) == linea);
    } else {
        assert(ut.last() == ts.last().last()) by {
            if ts.len() == 1 {
                assert(ut == ts[0]);
            } else {
                assert(ut == unir(ts.drop_last(), ',') + seq![','] + ts.last());
                assert(tag_limpio(p.tags@[ts.len() - 1]@));
                assert(ts.last().len() > 0);
            }
        }
        assert(tag_limpio(p.tags@[ts.len() - 1]@));
        assert(ts.last().len() > 0);
        assert(ut.len() > 0);
        assert(linea.last() == ut.last());
        assert(!es_blanco(ut.last()));
        assert(ut.last() != '\r');
        assert(limpiar_linea(linea) == linea);
    }
    // los campos decodificados
    if ts.len() == 0 {
        lemma_dividir_sin_sep(Seq::<char>::empty(), ',');
        assert(ut == Seq::<char>::empty());
        assert(dividir(ut, ',') == seq![Seq::<char>::empty()]);
        assert(partes =~= seq![d1, nom, d2, d3, Seq::<char>::empty()]);
        assert(partes.len() == 5);
        assert(partes.skip(4) =~= seq![Seq::<char>::empty()]);
        lemma_recortar_limpio(Seq::<char>::empty());
        assert forall|t: Seq<char>| !(#[trigger] tags_de(partes.skip(4)).contains(t)) by {
            if tags_de(partes.skip(4)).contains(t) {
                let i = choose|i: int|
                    0 <= i < partes.skip(4).len() && recortar(partes.skip(4)[i]) == t;
                assert(partes.skip(4)[i] == Seq::<char>::empty());
                assert(t.len() == 0);
            }
        }
        assert forall|t: Seq<char>| !(#[trigger] conjunto_tags(p.tags@).contains(t)) by {}
        assert(tags_de(partes.skip(4)) =~= conjunto_tags(p.tags@));
    } else {
        lemma_dividir_unir(ts, ',');
        assert(dividir(ut, ',') == ts);
        assert(partes =~= seq![d1, nom, d2, d3] + ts);
        assert(partes.len() == 4 + ts.len());
        assert(partes.skip(4) =~= ts);
        assert forall|t: Seq<char>| #[trigger]
            tags_de(partes.skip(4)).contains(t) implies conjunto_tags(p.tags@).contains(t) by {
            let i = choose|i: int|
                0 <= i < partes.skip(4).len() && recortar(partes.skip(4)[i]) == t;
            assert(partes.skip(4)[i] == p.tags@[i]@);
            assert(tag_limpio(p.tags@[i]@));
            lemma_recortar_limpio(p.tags@[i]@);
            assert(p.tags@[i]@ == t);
        }
        assert forall|t: Seq<char>| #[trigger]
            conjunto_tags(p.tags@).contains(t) implies tags_de(partes.skip(4)).contains(t) by {
            let i = choose|i: int| 0 <= i < p.tags@.len() && p.tags@[i]@ == t;
            assert(tag_limpio(p.tags@[i]@));
            lemma_recortar_limpio(p.tags@[i]@);
            assert(recortar(partes.skip(4)[i]) == t);
            assert(t.len() > 0);
        }
        assert(tags_de(partes.skip(4)) =~= conjunto_tags(p.tags@));
    }
    assert(partes[0] == d1);
    assert(partes[1] == nom);
    assert(partes[2] == d2);
    assert(partes[3] == d3);
    assert(partes.len() >= 5);
    assert(decodificar_linea(linea) == Some(p@));
}


/// El contenido de varios registros empieza por la línea del primero.
proof fn lemma_contenido_cabeza(ps: Seq<Producto>)
    requires
        ps.len() >= 1,
    ensures
        contenido_de(ps) == linea_de(ps[0]) + seq!['\n'] + contenido_de(ps.skip(1)),
    decreases ps.len(),
{
    if ps.len() == 1 {
        assert(ps.drop_last() =~= Seq::<Producto>::empty());
        assert(contenido_de(ps.drop_last()) == Seq::<char>::empty());
        assert(ps.skip(1) =~= Seq::<Producto>::empty());
        assert(contenido_de(ps) =~= linea_de(ps[0]) + seq!['\n'] + contenido_de(ps.skip(1)));
    } else {
        lemma_contenido_cabeza(ps.drop_last());
        assert(ps.drop_last()[0] == ps[0]);
        assert(ps.drop_last().skip(1) =~= ps.skip(1).drop_last());
        assert(ps.skip(1).last() == ps.last());
        assert(ps.skip(1).len() >= 1);
        assert(contenido_de(ps.skip(1)) == contenido_de(ps.skip(1).drop_last()) + linea_de(
            ps.last(),
        ) + seq!['\n']);
        assert(contenido_de(ps) == contenido_de(ps.drop_last()) + linea_de(ps.last())
            + seq!['\n']);
        assert(contenido_de(ps) =~= linea_de(ps[0]) + seq!['\n'] + contenido_de(ps.skip(1)));
    }
}

/// Partir el contenido por saltos de línea da una línea por registro
/// y una cola vacía.
proof fn lemma_dividir_contenido(ps: Seq<Producto>)
    requires
        forall|k: int| 0 <= k < ps.len() ==> producto_limpio(#[trigger] ps[k]),
    ensures
        dividir(contenido_de(ps), '\n') == ps.map_values(|p: Producto| linea_de(p)).push(
            Seq::<char>::empty(),
        ),
    decreases ps.len(),
{
    let lineas = ps.map_values(|p: Producto| linea_de(p));
    if ps.len() == 0 {
        assert(contenido_de(ps) == Seq::<char>::empty());
        assert(dividir(contenido_de(ps), '\n') =~= lineas.push(Seq::<char>::empty()));
    } else {
        lemma_contenido_cabeza(ps);
        lemma_linea_ida_y_vuelta(ps[0]);
        lemma_dividir_prefijo(linea_de(ps[0]), contenido_de(ps.skip(1)), '\n');
        assert forall|k: int| 0 <= k < ps.skip(1).len() implies producto_limpio(
            #[trigger] ps.skip(1)[k],
        ) by {
            assert(ps.skip(1)[k] == ps[k + 1]);
        }
        lemma_dividir_contenido(ps.skip(1));
        assert(dividir(contenido_de(ps), '\n') == seq![linea_de(ps[0])] + (ps.skip(
            1,
        ).map_values(|p: Producto| linea_de(p)).push(Seq::<char>::empty())));
        assert(dividir(contenido_de(ps), '\n') =~= lineas.push(Seq::<char>::empty()));
    }
}

/// Decodificar las líneas de registros limpios devuelve sus vistas.
proof fn lemma_decodifica_mapa(ps: Seq<Producto>)
    requires
        forall|k: int| 0 <= k < ps.len() ==> producto_limpio(#[trigger] ps[k]),
    ensures
        decodifica_lineas(ps.map_values(|p: Producto| linea_de(p))) == ps.map_values(
            |p: Producto| p@,
        ),
    decreases ps.len(),
{
    let lineas = ps.map_values(|p: Producto| linea_de(p));
    if ps.len() == 0 {
        assert(lineas =~= Seq::<Seq<char>>::empty());
        assert(decodifica_lineas(lineas) =~= ps.map_values(|p: Producto| p@));
    } else {
        assert forall|k: int| 0 <= k < ps.drop_last().len() implies producto_limpio(
            #[trigger] ps.drop_last()[k],
        ) by {
            assert(ps.drop_last()[k] == ps[k]);
        }
        lemma_decodifica_mapa(ps.drop_last());
        lemma_linea_ida_y_vuelta(ps.last());
        assert(lineas.drop_last() =~= ps.drop_last().map_values(|p: Producto| linea_de(p)));
        assert(lineas.last() == linea_de(ps.last()));
        assert(limpiar_linea(lineas.last()) == lineas.last());
        assert(decodificar_linea(lineas.last()) == Some(ps.last()@));
        assert(decodifica_lineas(lineas) == decodifica_lineas(lineas.drop_last()) + seq![
            ps.last()@,
        ]);
        assert(decodifica_lineas(lineas) =~= ps.map_values(|p: Producto| p@));
    }
}

/// Ley de ida y vuelta del formato: decodificar lo que `contenido_de`
/// codifica devuelve exactamente las vistas de los registros, siempre
/// que ningún nombre lleve coma ni salto de línea y cada tag sea no
/// vacío, sin coma ni salto de línea y sin blancos en los extremos.
pub proof fn lemma_ida_y_vuelta(ps: Seq<Producto>)
    requires
        forall|k: int| 0 <= k < ps.len() ==> producto_limpio(#[trigger] ps[k]),
    ensures
        decodificar(contenido_de(ps)) == ps.map_values(|p: Producto| p@),
{
    let lineas = ps.map_values(|p: Producto| linea_de(p));
    lemma_dividir_contenido(ps);
    let partes = dividir(contenido_de(ps), '\n');
    assert(partes == lineas.push(Seq::<char>::empty()));
    assert(partes.last().len() == 0);
    assert(lineas_de(contenido_de(ps)) == partes.drop_last());
    assert(partes.drop_last() =~= lineas);
    lemma_decodifica_mapa(ps);
}

} // verus!
