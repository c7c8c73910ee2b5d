use inventario::formato::decodificar_productos;
use inventario::manager::ErrorInventario;
use inventario::manager::InventarioManager;
use inventario::producto::Producto;

fn ids_de(v: &[Producto]) -> Vec<u32> {
    let mut ids: Vec<u32> = v.iter().map(|p| p.id).collect();
    ids.sort();
    ids
}

fn tags_ordenados(p: &Producto) -> Vec<String> {
    let mut t = p.tags.clone();
    t.sort();
    t
}

#[test]
fn escenario_basico() {
    let mut m = InventarioManager::new();
    let id1 = m.agregar_producto("Widget".to_string(), 100, 3, vec!["tools".to_string()]);
    assert_eq!(id1, 1);
    let bajos = m.productos_con_bajo_stock();
    assert_eq!(bajos.len(), 1);
    assert_eq!(bajos[0].id, 1);
    assert!(m.actualizar_stock(1, 10).is_ok());
    assert!(m.productos_con_bajo_stock().is_empty());
    let id2 = m.agregar_producto(
        "Gadget".to_string(),
        50,
        1,
        vec!["tools".to_string(), "small".to_string()],
    );
    assert_eq!(id2, 2);
    assert_eq!(ids_de(&m.buscar_por_tag("tools")), vec![1, 2]);
    assert!(m.eliminar_producto(1).is_ok());
    assert_eq!(ids_de(&m.buscar_por_tag("tools")), vec![2]);
    let caros = m.productos_mas_caros(1);
    assert_eq!(caros.len(), 1);
    assert_eq!(caros[0].nombre, "Gadget");
}

#[test]
fn linea_corta_descartada_y_numero_malo_a_cero() {
    let r = decodificar_productos("1,A,10\n");
    assert!(r.is_empty());
    let r2 = decodificar_productos("2,B,abc,4,t\n");
    assert_eq!(r2.len(), 1);
    assert_eq!(r2[0].id, 2);
    assert_eq!(r2[0].precio, 0);
    assert_eq!(r2[0].stock, 4);
    assert_eq!(r2[0].tags, vec!["t".to_string()]);
}

#[test]
fn ids_unicos_y_crecientes() {
    let mut m = InventarioManager::new();
    let mut anterior: u32 = 0;
    for i in 0..5u32 {
        let id = m.agregar_producto(format!("p{}", i), i, 10, vec![]);
        assert!(id > anterior);
        anterior = id;
    }
    assert!(m.eliminar_producto(3).is_ok());
    let id = m.agregar_producto("otro".to_string(), 1, 1, vec![]);
    assert_eq!(id, 6);
}

#[test]
fn umbral_de_bajo_stock() {
    let mut m = InventarioManager::new();
    let id = m.agregar_producto("a".to_string(), 10, 7, vec![]);
    assert!(m.productos_con_bajo_stock().is_empty());
    assert!(m.actualizar_stock(id, 4).is_ok());
    assert_eq!(ids_de(&m.productos_con_bajo_stock()), vec![id]);
    assert!(m.actualizar_stock(id, 5).is_ok());
    assert!(m.productos_con_bajo_stock().is_empty());
    assert!(m.actualizar_stock(id, 0).is_ok());
    assert_eq!(ids_de(&m.productos_con_bajo_stock()), vec![id]);
}

#[test]
fn orden_por_precio() {
    let mut m = InventarioManager::new();
    m.agregar_producto("b".to_string(), 20, 1, vec![]);
    m.agregar_producto("d".to_string(), 40, 1, vec![]);
    m.agregar_producto("a".to_string(), 10, 1, vec![]);
    m.agregar_producto("c".to_string(), 30, 1, vec![]);
    let caros = m.productos_mas_caros(10);
    let precios: Vec<u32> = caros.iter().map(|p| p.precio).collect();
    assert_eq!(precios, vec![40, 30, 20, 10]);
    let baratos = m.productos_mas_baratos(2);
    let precios2: Vec<u32> = baratos.iter().map(|p| p.precio).collect();
    assert_eq!(precios2, vec![10, 20]);
    assert!(m.actualizar_stock(2, 9).is_ok());
    assert!(m.eliminar_producto(4).is_ok());
    let caros2 = m.productos_mas_caros(10);
    let precios3: Vec<u32> = caros2.iter().map(|p| p.precio).collect();
    assert_eq!(precios3, vec![40, 20, 10]);
}

#[test]
fn errores_de_id_ausente() {
    let mut m = InventarioManager::new();
    assert_eq!(
        m.actualizar_stock(99, 1),
        Err(ErrorInventario::NoEncontrado(99))
    );
    assert_eq!(m.eliminar_producto(7), Err(ErrorInventario::NoEncontrado(7)));
    let id = m.agregar_producto("x".to_string(), 1, 1, vec![]);
    assert!(m.eliminar_producto(id).is_ok());
    assert_eq!(
        m.eliminar_producto(id),
        Err(ErrorInventario::NoEncontrado(id))
    );
}

#[test]
fn guardar_produce_la_linea_exacta() {
    let mut m = InventarioManager::new();
    m.agregar_producto("Widget".to_string(), 100, 3, vec!["tools".to_string()]);
    assert_eq!(m.guardar_inventario(), "1,Widget,100,3,tools\n");
    m.agregar_producto(
        "Gadget".to_string(),
        50,
        1,
        vec!["b".to_string(), "a".to_string(), "b".to_string()],
    );
    assert_eq!(
        m.guardar_inventario(),
        "1,Widget,100,3,tools\n2,Gadget,50,1,b,a\n"
    );
}

#[test]
fn ida_y_vuelta_guardar_cargar() {
    let mut m = InventarioManager::new();
    m.agregar_producto(
        "Widget".to_string(),
        100,
        3,
        vec!["tools".to_string(), "small".to_string()],
    );
    m.agregar_producto("Gadget".to_string(), 50, 12, vec![]);
    let contenido = m.guardar_inventario();
    let mut m2 = InventarioManager::new();
    assert!(m2.cargar_inventario(&contenido).is_ok());
    let antes = m.obtener_todos_productos();
    let mut despues = m2.obtener_todos_productos();
    despues.sort_by_key(|p| p.id);
    assert_eq!(antes.len(), despues.len());
    for (a, b) in antes.iter().zip(despues.iter()) {
        assert_eq!(a.id, b.id);
        assert_eq!(a.nombre, b.nombre);
        assert_eq!(a.precio, b.precio);
        assert_eq!(a.stock, b.stock);
        assert_eq!(tags_ordenados(a), tags_ordenados(b));
    }
    let id = m2.agregar_producto("nuevo".to_string(), 1, 1, vec![]);
    assert_eq!(id, 3);
}

#[test]
fn cargar_reemplaza_todo_y_gana_la_ultima() {
    let mut m = InventarioManager::new();
    m.agregar_producto("viejo".to_string(), 9, 9, vec!["v".to_string()]);
    let contenido = "7,X,5,2,t\n3,A,1,1,\n3,B,2,9,\n";
    assert!(m.cargar_inventario(contenido).is_ok());
    assert_eq!(ids_de(&m.obtener_todos_productos()), vec![3, 7]);
    let todos = m.obtener_todos_productos();
    let b = todos.iter().find(|p| p.id == 3).unwrap();
    assert_eq!(b.nombre, "B");
    assert_eq!(b.stock, 9);
    assert!(m.buscar_por_tag("v").is_empty());
    assert_eq!(ids_de(&m.productos_con_bajo_stock()), vec![7]);
    assert_eq!(m.proximo_id(), 8);
}

#[test]
fn cargar_rechaza_id_que_desborda() {
    let mut m = InventarioManager::new();
    m.agregar_producto("queda".to_string(), 2, 2, vec![]);
    let contenido = "4294967295,X,1,1,t\n";
    assert_eq!(
        m.cargar_inventario(contenido),
        Err(ErrorInventario::IdFueraDeRango(u32::MAX))
    );
    assert_eq!(ids_de(&m.obtener_todos_productos()), vec![1]);
}

#[test]
fn catalogo_vacio() {
    let m = InventarioManager::new();
    assert!(m.obtener_todos_productos().is_empty());
    assert!(m.productos_mas_caros(3).is_empty());
    assert!(m.productos_mas_baratos(3).is_empty());
    assert!(m.buscar_por_tag("nada").is_empty());
    assert_eq!(m.guardar_inventario(), "");
}

#[test]
fn campos_numericos_y_tags_con_adornos() {
    let r = decodificar_productos("5,C,+12,03, a ,,b \n");
    assert_eq!(r.len(), 1);
    assert_eq!(r[0].precio, 12);
    assert_eq!(r[0].stock, 3);
    let mut tags = r[0].tags.clone();
    tags.sort();
    assert_eq!(tags, vec!["a".to_string(), "b".to_string()]);
    let grande = decodificar_productos("6,D,99999999999999999999,1,t\n");
    assert_eq!(grande[0].precio, 0);
}
