//! Catálogo de productos en memoria con vistas sincronizadas:
//! mapa primario por id, índice por tag, ranking por precio y
//! conjunto de bajo stock, más la codificación de línea para persistencia.

pub mod formato;
pub mod manager;
pub mod producto;
