# Geosetta

Conversion between geospatial vector formats: GeoJSON, CSV with WKT, WKT lines,
KML and KMZ, FlatGeobuf, and the tables of a GeoPackage, with the columns that a
GeoParquet file is made of. Reference systems are passed through, never applied:
no coordinate is transformed.

The library under `src/` is written in Verus: every function has a contract that
is proved, and the properties that span several functions are proof functions
whose names start with `law_`.

| Modules | What they hold |
| --- | --- |
| `geometry`, `feature`, `property`, `schema` | the model that every format is read into and written from, WKB and WKT, and the columns that properties make |
| `json`, `xml`, `csv`, `text`, `number`, `decimal`, `bytes` | grammars and numerals |
| `geojson`, `kml`, `flatgeobuf`, `flatbuffers`, `geopackage`, `sqlite` | the formats |
| `crs` | reference systems: WKT, PROJJSON, the registry, and what a format can record of them |
| `compress` | the codecs of compressed pages |
| `spatial`, `sort` | the order of features along a Hilbert curve |
| `cli`, `report`, `convert` | arguments, warnings and answers, and the way from one format to another |

Doubles are carried as IEEE-754 bit patterns in the binary formats and as decimal
text in the text formats; nothing in the library is floating point. `app/` is the
command-line program around the library: files and pipes, and the way between the
two forms of a number.

What is trusted rather than proved: a few functions of the standard library on
characters and text, and the lookups in the registry of the `geoscribe` crate.
Each is a small function or specification with a comment that says what is
claimed of it.
