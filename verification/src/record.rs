use crate::error::{DecodeError, Parse};
use crate::name::{
    lemma_parse_plain_name_end, name_fits, name_of, name_wire, parse_plain_name, read_plain_name,
    write_name, MAX_LABEL,
};
use crate::wire::{get_u16, get_u32, put_u16, put_u32, u16_at, u16_wire, u32_at, u32_wire};
use vstd::prelude::*;
use vstd::slice::{slice_subrange, slice_to_vec};

verus! {

/// One entry of the answer section. The payload is kept as raw bytes.
#[derive(Debug)]
pub struct ResourceRecord {
    pub name: Vec<String>,
    pub rtype: u16,
    pub class: u16,
    pub ttl: u32,
    pub rdlength: u16,
    pub rdata: Vec<u8>,
}

/// A record as the contracts see it.
pub struct RecordView {
    pub name: Seq<Seq<char>>,
    pub rtype: u16,
    pub class: u16,
    pub ttl: u32,
    pub rdlength: u16,
    pub rdata: Seq<u8>,
}

impl RecordView {
    /// The length field says how many payload bytes there are.
    pub open spec fn wf(self) -> bool {
        self.rdlength == self.rdata.len()
    }
}

impl View for ResourceRecord {
    type V = RecordView;

    open spec fn view(&self) -> RecordView {
        RecordView {
            name: name_of(self.name@),
            rtype: self.rtype,
            class: self.class,
            ttl: self.ttl,
            rdlength: self.rdlength,
            rdata: self.rdata@,
        }
    }
}

/// The views of a sequence of records.
pub open spec fn records_of(records: Seq<ResourceRecord>) -> Seq<RecordView> {
    Seq::new(records.len(), |i: int| records[i]@)
}

/// What parsing records gives: the records and the position behind the last
/// of them.
pub type RecordsParse = Parse<Seq<RecordView>>;

/// The number of bytes between a record's name and its payload: type,
/// class, time to live and payload length.
pub const FIXED_LEN: usize = 10;

/// A record on the wire: the name in full, the fixed fields, the payload.
pub open spec fn record_wire(r: RecordView) -> Seq<u8> {
    name_wire(r.name) + u16_wire(r.rtype) + u16_wire(r.class) + u32_wire(r.ttl) + u16_wire(
        r.rdlength,
    ) + r.rdata
}

/// Records on the wire, one after the other.
pub open spec fn records_wire(records: Seq<RecordView>) -> Seq<u8>
    decreases records.len(),
{
    if records.len() == 0 {
        Seq::empty()
    } else {
        record_wire(records[0]) + records_wire(records.drop_first())
    }
}

/// Parses the record at `pos`: a name without compression, the fixed
/// fields, and as many payload bytes as the length field says.
pub open spec fn parse_record(buf: Seq<u8>, pos: int) -> Parse<RecordView> {
    match parse_plain_name(buf, pos) {
        Err(e) => Err(e),
        Ok((name, end)) => if end + FIXED_LEN > buf.len() {
            Err(DecodeError::TruncatedMessage)
        } else {
            let rdlength = u16_at(buf, end + 8);
            let stop = end + FIXED_LEN + rdlength;
            if stop > buf.len() {
                Err(DecodeError::TruncatedMessage)
            } else {
                Ok(
                    (
                        RecordView {
                            name,
                            rtype: u16_at(buf, end),
                            class: u16_at(buf, end + 2),
                            ttl: u32_at(buf, end + 4),
                            rdlength,
                            rdata: buf.subrange(end + FIXED_LEN, stop),
                        },
                        stop,
                    ),
                )
            }
        },
    }
}

/// Parses `count` records from `pos` on.
pub open spec fn parse_records(buf: Seq<u8>, pos: int, count: nat) -> RecordsParse
    decreases count,
{
    if count == 0 {
        Ok((Seq::empty(), pos))
    } else {
        match parse_record(buf, pos) {
            Err(e) => Err(e),
            Ok((r, next)) => match parse_records(buf, next, (count - 1) as nat) {
                Err(e) => Err(e),
                Ok((rest, end)) => Ok((seq![r] + rest, end)),
            },
        }
    }
}

/// The records that parsing `count` of them from the start of `buf` gives.
pub open spec fn parsed_records(buf: Seq<u8>, count: nat) -> Result<Seq<RecordView>, DecodeError> {
    match parse_records(buf, 0, count) {
        Ok((records, _)) => Ok(records),
        Err(e) => Err(e),
    }
}

/// The record is read back by the answer section: each label of its name
/// has between 1 and 255 bytes, and its length field says how many payload
/// bytes there are.
pub open spec fn record_fits(r: RecordView) -> bool {
    name_fits(r.name, MAX_LABEL as int) && r.wf()
}

/// Every one of the records is read back by the answer section.
pub open spec fn records_fit(records: Seq<RecordView>) -> bool {
    forall|i: int| 0 <= i < records.len() ==> record_fits(#[trigger] records[i])
}

/// Parsing gives as many records as were asked for, each with a payload
/// of the length it announces, and ends inside the buffer.
pub proof fn lemma_parse_records_len(buf: Seq<u8>, pos: int, count: nat)
    requires
        0 <= pos <= buf.len(),
    ensures
        parse_records(buf, pos, count) matches Ok((records, end)) ==> records.len() == count && pos
            <= end <= buf.len() && forall|i: int|
            0 <= i < records.len() ==> (#[trigger] records[i]).wf(),
    decreases count,
{
    if count > 0 {
        lemma_parse_plain_name_end(buf, pos);
        match parse_record(buf, pos) {
            Ok((r, next)) => {
                lemma_parse_records_len(buf, next, (count - 1) as nat);
            },
            Err(e) => {},
        }
    }
}

/// What the whole parse comes to once `prefix` has been read and `rest` is
/// what parsing gives from the current position on.
spec fn resumed(prefix: Seq<RecordView>, rest: RecordsParse) -> RecordsParse {
    match rest {
        Ok((records, end)) => Ok((prefix + records, end)),
        Err(e) => Err(e),
    }
}

impl ResourceRecord {
    /// Writes the record: the name in full, the fixed fields as they stand,
    /// then every payload byte.
    pub fn serialize(&self) -> (bytes: Vec<u8>)
        ensures
            bytes@ == record_wire(self@),
    {
        let mut buffer: Vec<u8> = Vec::new();
        write_name(&mut buffer, &self.name);
        put_u16(&mut buffer, self.rtype);
        put_u16(&mut buffer, self.class);
        put_u32(&mut buffer, self.ttl);
        put_u16(&mut buffer, self.rdlength);
        buffer.extend_from_slice(self.rdata.as_slice());
        buffer
    }

    /// Parses `rcount` records from the start of `buffer`. Names are read
    /// without compression, and each payload has exactly the length that
    /// the record announces.
    pub fn deserialize(buffer: &[u8], rcount: u16) -> (r: Result<Vec<ResourceRecord>, DecodeError>)
        ensures
            match r {
                Ok(records) => parsed_records(buffer@, rcount as nat) == Ok::<_, DecodeError>(
                    records_of(records@),
                ),
                Err(e) => parsed_records(buffer@, rcount as nat) == Err::<Seq<RecordView>, _>(e),
            },
            r matches Ok(records) ==> records.len() == rcount && forall|i: int|
                0 <= i < records.len() ==> (#[trigger] records[i])@.wf(),
    {
        proof {
            lemma_parse_records_len(buffer@, 0, rcount as nat);
        }
        let ghost buf = buffer@;
        let ghost goal = parse_records(buf, 0, rcount as nat);
        let mut records: Vec<ResourceRecord> = Vec::new();
        let mut pos: usize = 0;
        let mut done: u16 = 0;
        while done < rcount
            invariant
                done <= rcount,
                buf == buffer@,
                goal == parse_records(buf, 0, rcount as nat),
                goal == resumed(
                    records_of(records@),
                    parse_records(buf, pos as int, (rcount - done) as nat),
                ),
                forall|i: int| 0 <= i < records.len() ==> (#[trigger] records[i])@.wf(),
            decreases rcount - done,
        {
            let ghost before = records_of(records@);
            let (name, end) = match read_plain_name(buffer, pos) {
                Ok(found) => found,
                Err(e) => {
                    return Err(e);
                },
            };
            if buffer.len() < FIXED_LEN || end > buffer.len() - FIXED_LEN {
                return Err(DecodeError::TruncatedMessage);
            }
            let rtype = get_u16(buffer, end);
            let class = get_u16(buffer, end + 2);
            let ttl = get_u32(buffer, end + 4);
            let rdlength = get_u16(buffer, end + 8);
            let start = end + FIXED_LEN;
            if rdlength as usize > buffer.len() - start {
                return Err(DecodeError::TruncatedMessage);
            }
            let stop = start + rdlength as usize;
            let rdata = slice_to_vec(slice_subrange(buffer, start, stop));
            let record = ResourceRecord { name, rtype, class, ttl, rdlength, rdata };
            proof {
                match parse_records(buf, stop as int, (rcount - done - 1) as nat) {
                    Ok((rs, e)) => {
                        assert(before.push(record@) + rs =~= before + (seq![record@] + rs));
                    },
                    Err(e) => {},
                }
            }
            records.push(record);
            assert(records_of(records@) =~= before.push(record@));
            pos = stop;
            done += 1;
        }
        Ok(records)
    }
}

} // verus!
