use quick_protobuf::sizeofs::{sizeof_int32, sizeof_int64, sizeof_len, sizeof_sint64, sizeof_uint32, sizeof_uint64};
use quick_protobuf::{BytesReader, MessageRead, MessageWrite, Writer, WriterBackend};

use rosm_mvt::common::Value;
use rosm_mvt::geometry::GeomType;
use rosm_mvt::write::{EncodableGeometry, Feature, Geometry, Layer, Tile, VERSION};

// A hand-written mirror of the tile wire schema, used as the conformant
// reference reader and writer for round-trip checks.

#[derive(Debug, PartialEq, Default, Clone)]
struct PbfValue {
    string_value: Option<String>,
    float_value: Option<f32>,
    double_value: Option<f64>,
    int_value: Option<i64>,
    uint_value: Option<u64>,
    sint_value: Option<i64>,
    bool_value: Option<bool>,
}

#[derive(Debug, PartialEq, Default, Clone)]
struct PbfFeature {
    id: u64,
    tags: Vec<u32>,
    geom_type: i32,
    geometry: Vec<u32>,
}

#[derive(Debug, PartialEq, Default, Clone)]
struct PbfLayer {
    version: u32,
    name: String,
    features: Vec<PbfFeature>,
    keys: Vec<String>,
    values: Vec<PbfValue>,
    extent: u32,
}

#[derive(Debug, PartialEq, Default, Clone)]
struct PbfTile {
    layers: Vec<PbfLayer>,
}

impl MessageWrite for PbfValue {
    fn get_size(&self) -> usize {
        let mut size = 0;
        if let Some(s) = &self.string_value {
            size += 1 + sizeof_len(s.len());
        }
        if self.float_value.is_some() {
            size += 1 + 4;
        }
        if self.double_value.is_some() {
            size += 1 + 8;
        }
        if let Some(v) = self.int_value {
            size += 1 + sizeof_int64(v);
        }
        if let Some(v) = self.uint_value {
            size += 1 + sizeof_uint64(v);
        }
        if let Some(v) = self.sint_value {
            size += 1 + sizeof_sint64(v);
        }
        if self.bool_value.is_some() {
            size += 1 + 1;
        }
        size
    }

    fn write_message<W: WriterBackend>(&self, w: &mut Writer<W>) -> quick_protobuf::Result<()> {
        if let Some(s) = &self.string_value {
            w.write_with_tag(10, |w| w.write_string(s))?;
        }
        if let Some(v) = self.float_value {
            w.write_with_tag(21, |w| w.write_float(v))?;
        }
        if let Some(v) = self.double_value {
            w.write_with_tag(25, |w| w.write_double(v))?;
        }
        if let Some(v) = self.int_value {
            w.write_with_tag(32, |w| w.write_int64(v))?;
        }
        if let Some(v) = self.uint_value {
            w.write_with_tag(40, |w| w.write_uint64(v))?;
        }
        if let Some(v) = self.sint_value {
            w.write_with_tag(48, |w| w.write_sint64(v))?;
        }
        if let Some(v) = self.bool_value {
            w.write_with_tag(56, |w| w.write_bool(v))?;
        }
        Ok(())
    }
}

impl<'a> MessageRead<'a> for PbfValue {
    fn from_reader(r: &mut BytesReader, bytes: &'a [u8]) -> quick_protobuf::Result<Self> {
        let mut msg = PbfValue::default();
        while !r.is_eof() {
            match r.next_tag(bytes)? {
                10 => msg.string_value = Some(r.read_string(bytes)?.to_owned()),
                21 => msg.float_value = Some(r.read_float(bytes)?),
                25 => msg.double_value = Some(r.read_double(bytes)?),
                32 => msg.int_value = Some(r.read_int64(bytes)?),
                40 => msg.uint_value = Some(r.read_uint64(bytes)?),
                48 => msg.sint_value = Some(r.read_sint64(bytes)?),
                56 => msg.bool_value = Some(r.read_bool(bytes)?),
                t => r.read_unknown(bytes, t)?,
            }
        }
        Ok(msg)
    }
}

impl MessageWrite for PbfFeature {
    fn get_size(&self) -> usize {
        let mut size = 1 + sizeof_uint64(self.id);
        if !self.tags.is_empty() {
            size += 1 + sizeof_len(self.tags.iter().map(|v| sizeof_uint32(*v)).sum());
        }
        size += 1 + sizeof_int32(self.geom_type);
        if !self.geometry.is_empty() {
            size += 1 + sizeof_len(self.geometry.iter().map(|v| sizeof_uint32(*v)).sum());
        }
        size
    }

    fn write_message<W: WriterBackend>(&self, w: &mut Writer<W>) -> quick_protobuf::Result<()> {
        w.write_with_tag(8, |w| w.write_uint64(self.id))?;
        w.write_packed_with_tag(18, &self.tags, |w, v| w.write_uint32(*v), &|v| {
            sizeof_uint32(*v)
        })?;
        w.write_with_tag(24, |w| w.write_int32(self.geom_type))?;
        w.write_packed_with_tag(34, &self.geometry, |w, v| w.write_uint32(*v), &|v| {
            sizeof_uint32(*v)
        })?;
        Ok(())
    }
}

impl<'a> MessageRead<'a> for PbfFeature {
    fn from_reader(r: &mut BytesReader, bytes: &'a [u8]) -> quick_protobuf::Result<Self> {
        let mut msg = PbfFeature::default();
        while !r.is_eof() {
            match r.next_tag(bytes)? {
                8 => msg.id = r.read_uint64(bytes)?,
                18 => msg.tags = r.read_packed(bytes, |r, bytes| r.read_uint32(bytes))?,
                24 => msg.geom_type = r.read_int32(bytes)?,
                34 => msg.geometry = r.read_packed(bytes, |r, bytes| r.read_uint32(bytes))?,
                t => r.read_unknown(bytes, t)?,
            }
        }
        Ok(msg)
    }
}

impl MessageWrite for PbfLayer {
    fn get_size(&self) -> usize {
        let mut size = 1 + sizeof_uint32(self.version);
        size += 1 + sizeof_len(self.name.len());
        size += self
            .features
            .iter()
            .map(|f| 1 + sizeof_len(f.get_size()))
            .sum::<usize>();
        size += self.keys.iter().map(|k| 1 + sizeof_len(k.len())).sum::<usize>();
        size += self
            .values
            .iter()
            .map(|v| 1 + sizeof_len(v.get_size()))
            .sum::<usize>();
        size += 1 + sizeof_uint32(self.extent);
        size
    }

    fn write_message<W: WriterBackend>(&self, w: &mut Writer<W>) -> quick_protobuf::Result<()> {
        w.write_with_tag(120, |w| w.write_uint32(self.version))?;
        w.write_with_tag(10, |w| w.write_string(self.name.as_str()))?;
        for f in &self.features {
            w.write_with_tag(18, |w| w.write_message(f))?;
        }
        for k in &self.keys {
            w.write_with_tag(26, |w| w.write_string(k.as_str()))?;
        }
        for v in &self.values {
            w.write_with_tag(34, |w| w.write_message(v))?;
        }
        w.write_with_tag(40, |w| w.write_uint32(self.extent))?;
        Ok(())
    }
}

impl<'a> MessageRead<'a> for PbfLayer {
    fn from_reader(r: &mut BytesReader, bytes: &'a [u8]) -> quick_protobuf::Result<Self> {
        let mut msg = PbfLayer::default();
        while !r.is_eof() {
            match r.next_tag(bytes)? {
                120 => msg.version = r.read_uint32(bytes)?,
                10 => msg.name = r.read_string(bytes)?.to_owned(),
                18 => msg.features.push(r.read_message(bytes)?),
                26 => msg.keys.push(r.read_string(bytes)?.to_owned()),
                34 => msg.values.push(r.read_message(bytes)?),
                40 => msg.extent = r.read_uint32(bytes)?,
                t => r.read_unknown(bytes, t)?,
            }
        }
        Ok(msg)
    }
}

impl MessageWrite for PbfTile {
    fn get_size(&self) -> usize {
        self.layers
            .iter()
            .map(|l| 1 + sizeof_len(l.get_size()))
            .sum::<usize>()
    }

    fn write_message<W: WriterBackend>(&self, w: &mut Writer<W>) -> quick_protobuf::Result<()> {
        for l in &self.layers {
            w.write_with_tag(26, |w| w.write_message(l))?;
        }
        Ok(())
    }
}

impl<'a> MessageRead<'a> for PbfTile {
    fn from_reader(r: &mut BytesReader, bytes: &'a [u8]) -> quick_protobuf::Result<Self> {
        let mut msg = PbfTile::default();
        while !r.is_eof() {
            match r.next_tag(bytes)? {
                26 => msg.layers.push(r.read_message(bytes)?),
                t => r.read_unknown(bytes, t)?,
            }
        }
        Ok(msg)
    }
}

fn pbf_value(v: &Value) -> PbfValue {
    let mut out = PbfValue::default();
    match v {
        Value::String(s) => out.string_value = Some(s.clone()),
        Value::Float(bits) => out.float_value = Some(f32::from_bits(*bits)),
        Value::Double(bits) => out.double_value = Some(f64::from_bits(*bits)),
        Value::Int(v) => out.int_value = Some(*v),
        Value::UInt(v) => out.uint_value = Some(*v),
        Value::SInt(v) => out.sint_value = Some(*v),
        Value::Bool(v) => out.bool_value = Some(*v),
    }
    out
}

fn pbf_geom_type(t: GeomType) -> i32 {
    match t {
        GeomType::Unknown => 0,
        GeomType::Point => 1,
        GeomType::Linestring => 2,
        GeomType::Polygon => 3,
    }
}

fn pbf_tile(tile: &Tile) -> PbfTile {
    PbfTile {
        layers: tile
            .layers()
            .iter()
            .map(|layer| PbfLayer {
                version: VERSION,
                name: layer.name().to_owned(),
                features: layer
                    .features()
                    .iter()
                    .map(|f| PbfFeature {
                        id: f.id,
                        tags: f.tags.clone(),
                        geom_type: pbf_geom_type(f.geom_type),
                        geometry: f.geometry.clone(),
                    })
                    .collect(),
                keys: layer.keys().clone(),
                values: layer.values().iter().map(pbf_value).collect(),
                extent: layer.extent,
            })
            .collect(),
    }
}

fn create_test_tile() -> Result<Tile, rosm_mvt::error::SpecViolation> {
    let geometry = Geometry::Point((2048, 2048));
    let mut poi = Feature::new(geometry.encode().unwrap());
    poi.id = Some(1234);
    poi.add_tag("key", Value::Int(123));

    let features = vec![poi];

    let layers = vec![Layer::new("layer", features)?];

    Tile::new(layers)
}

#[test]
fn read_back() {
    let tile = create_test_tile().unwrap();

    let mut out = Vec::new();
    let mut writer = Writer::new(&mut out);
    let message: PbfTile = pbf_tile(&tile);
    message.write_message(&mut writer).unwrap();

    let read_message = {
        let mut reader = BytesReader::from_bytes(&out);
        PbfTile::from_reader(&mut reader, &out).unwrap()
    };

    assert_eq!(message, read_message);
}

#[test]
fn end_to_end_point_tile() {
    let tile = create_test_tile().unwrap();

    let mut out = Vec::new();
    let mut writer = Writer::new(&mut out);
    pbf_tile(&tile).write_message(&mut writer).unwrap();

    let mut reader = BytesReader::from_bytes(&out);
    let read_message = PbfTile::from_reader(&mut reader, &out).unwrap();

    let expected = PbfTile {
        layers: vec![PbfLayer {
            version: 2,
            name: "layer".to_owned(),
            features: vec![PbfFeature {
                id: 1234,
                tags: vec![0, 0],
                geom_type: 1,
                geometry: vec![9, 4096, 4096],
            }],
            keys: vec!["key".to_owned()],
            values: vec![PbfValue {
                int_value: Some(123),
                ..Default::default()
            }],
            extent: 4096,
        }],
    };
    assert_eq!(read_message, expected);
}
