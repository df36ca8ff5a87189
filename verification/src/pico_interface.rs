//! The exchange with the device over the serial line: the layout of a
//! reading, the decisions taken on each byte the device answers, and the
//! gathering of the readings it sends.

use vstd::prelude::*;
use vstd::string::*;

use crate::text::push_char;

verus! {

/// Bytes in one reading: humidity (whole, tenth), temperature (whole,
/// tenth), then a 24-bit little-endian time in seconds.
pub const BYTES_IN_READING: usize = 7;

/// How to name the serial port, shown when it cannot be opened.
pub const PORT_FORMAT_ERROR_MESSAGE: &'static str = "
    Ensure port is:
        COM[x] on windows
        /dev/ttyS[x] for usb on linux
        /dev/rfcomm[x] for bluetooth on linux
    corresponding to the paired bluetooth module or usb port\n";

/// Milliseconds to wait for a byte from the device.
pub const MAX_TIMEOUT: u64 = 250;

/// The most readings the device keeps, and so sends in one exchange.
pub const MAX_SENSOR_BUFFER: usize = 30000;

/// How many times the readings are asked for.
pub const REQUEST_ATTEMPTS: usize = 2;

/// What to do after the device answered a request for readings.
pub enum RequestStep {
    /// The device will send its readings.
    Accepted,
    /// The device refused; ask again.
    Retry,
    /// The device refused the last request: give up with this error.
    GiveUp(String),
    /// Stop with this error.
    Failed(String),
}

/// The error of a device that has nothing to send.
pub open spec fn nothing_to_send_text() -> Seq<char> {
    "    Device Has nothing in buffer to send!"@
}

/// The error of a device that refused every request.
pub open spec fn no_positive_response_text() -> Seq<char> {
    "    No positive response from device"@
}

/// The error of an answer that means nothing.
pub open spec fn unexpected_response_text(response: u8) -> Seq<char> {
    "    Unexpected response from device: "@ + seq![response as char]
}

/// Decides on the device's answer `response` to request number `attempt`
/// (from 0): 1 accepts, 2 means nothing to send, 3 refuses (asked again
/// while attempts remain), anything else is an error.
pub fn request_step(attempt: usize, response: u8) -> (step: RequestStep)
    requires
        attempt < REQUEST_ATTEMPTS,
    ensures
        response == 1 ==> step is Accepted,
        response == 2 ==> (step matches RequestStep::Failed(e) && e@ == nothing_to_send_text()),
        response == 3 && attempt + 1 < REQUEST_ATTEMPTS ==> step is Retry,
        response == 3 && attempt + 1 == REQUEST_ATTEMPTS ==> (step matches RequestStep::GiveUp(e)
            && e@ == no_positive_response_text()),
        !(1 <= response <= 3) ==> (step matches RequestStep::Failed(e) && e@
            == unexpected_response_text(response)),
{
    if response == 1 {
        RequestStep::Accepted
    } else if response == 2 {
        let mut e = String::new();
        e.append("    Device Has nothing in buffer to send!");
        RequestStep::Failed(e)
    } else if response == 3 {
        if attempt + 1 < REQUEST_ATTEMPTS {
            RequestStep::Retry
        } else {
            let mut e = String::new();
            e.append("    No positive response from device");
            RequestStep::GiveUp(e)
        }
    } else {
        let mut e = String::new();
        e.append("    Unexpected response from device: ");
        push_char(&mut e, response as char);
        RequestStep::Failed(e)
    }
}

/// The outcome of one read from the serial port.
pub enum ReadResult {
    /// This many bytes arrived.
    Bytes(usize),
    /// Nothing arrived before the timeout.
    TimedOut,
    /// The read failed with this message.
    Failed(String),
}

/// The number of bytes a read gave: a timeout counts as none (the device may
/// have run out of data on a reading's boundary); other failures are errors.
pub fn handle_reading_data_result(result: ReadResult) -> (r: Result<usize, String>)
    ensures
        match result {
            ReadResult::Bytes(n) => r == Ok::<usize, String>(n),
            ReadResult::TimedOut => r == Ok::<usize, String>(0),
            ReadResult::Failed(e) => r == Err::<usize, String>(e),
        },
{
    match result {
        ReadResult::Bytes(size) => Ok(size),
        ReadResult::TimedOut => Ok(0),
        ReadResult::Failed(e) => Err(e),
    }
}

/// The byte that the device sends after a reading when more follow.
pub const SYNC_CONTINUE: u8 = 255;

/// The byte that the device sends after its last reading.
pub const SYNC_END: u8 = 254;

/// What to do after reading the byte that follows a reading.
pub enum SyncStep {
    /// More readings follow.
    Continue,
    /// That was the last reading.
    End,
    /// A wrong byte: read the next one.
    Resync,
    /// Stop with this error.
    Failed(String),
    /// No byte came where one must: the exchange is broken.
    Missing,
}

/// Decides on the read of the byte after a reading, given what the read gave
/// and the byte read.
pub fn sync_step(read: Result<usize, String>, sync_char: u8) -> (step: SyncStep)
    ensures
        match read {
            Err(e) => step == SyncStep::Failed(e),
            Ok(n) => if n != 1 {
                step is Missing
            } else if sync_char == SYNC_CONTINUE {
                step is Continue
            } else if sync_char == SYNC_END {
                step is End
            } else {
                step is Resync
            },
        },
{
    match read {
        Err(e) => SyncStep::Failed(e),
        Ok(bytes_read) => {
            if bytes_read == 1 {
                if sync_char == SYNC_CONTINUE {
                    SyncStep::Continue
                } else if sync_char == SYNC_END {
                    SyncStep::End
                } else {
                    SyncStep::Resync
                }
            } else {
                SyncStep::Missing
            }
        },
    }
}

/// `n` zero bytes.
pub open spec fn zeros(n: nat) -> Seq<u8> {
    Seq::new(n, |i: int| 0u8)
}

/// A read chunk filled up with zeros to a whole reading.
pub open spec fn padded_chunk(bytes: Seq<u8>) -> Seq<u8> {
    bytes + zeros((BYTES_IN_READING - bytes.len()) as nat)
}

/// The room that read chunks take: each chunk filled up to a reading.
pub open spec fn padded_chunks(chunks: Seq<Seq<u8>>) -> Seq<u8>
    decreases chunks.len(),
{
    if chunks.len() == 0 {
        Seq::<u8>::empty()
    } else {
        padded_chunks(chunks.drop_last()) + padded_chunk(chunks.last())
    }
}

/// The number of bytes in read chunks.
pub open spec fn chunks_total(chunks: Seq<Seq<u8>>) -> nat
    decreases chunks.len(),
{
    if chunks.len() == 0 {
        0
    } else {
        chunks_total(chunks.drop_last()) + chunks.last().len()
    }
}

/// The bytes of read chunks, one after the other.
pub open spec fn joined_chunks(chunks: Seq<Seq<u8>>) -> Seq<u8>
    decreases chunks.len(),
{
    if chunks.len() == 0 {
        Seq::<u8>::empty()
    } else {
        joined_chunks(chunks.drop_last()) + chunks.last()
    }
}

/// The data kept from read chunks: as many bytes as were read, from the
/// start of the room the chunks take.
pub open spec fn collected(chunks: Seq<Seq<u8>>) -> Seq<u8> {
    padded_chunks(chunks).take(chunks_total(chunks) as int)
}

/// Gathers the readings the device sends, one chunk of at most a reading at
/// a time. Each chunk takes the room of a whole reading, its missing bytes
/// zero; the bytes kept at the end are as many as were read, taken from the
/// start of that room.
pub struct Collector {
    buffer: Vec<u8>,
    total: usize,
    chunks: Ghost<Seq<Seq<u8>>>,
}

impl Collector {
    /// The chunks read so far.
    pub closed spec fn chunks(&self) -> Seq<Seq<u8>> {
        self.chunks@
    }

    /// The room holds the chunks read, no more than one exchange takes, and
    /// the count of bytes is theirs.
    pub closed spec fn wf(&self) -> bool {
        &&& self.buffer@ == padded_chunks(self.chunks@)
        &&& self.total == chunks_total(self.chunks@)
        &&& self.buffer@.len() == self.chunks@.len() * 7
        &&& forall|i: int| 0 <= i < self.chunks@.len() ==> (#[trigger] self.chunks@[i]).len() <= 7
        &&& self.chunks@.len() <= MAX_SENSOR_BUFFER
    }

    /// A collector that has read nothing.
    pub fn new() -> (c: Collector)
        ensures
            c.wf(),
            c.chunks() == Seq::<Seq<u8>>::empty(),
    {
        Collector { buffer: Vec::new(), total: 0, chunks: Ghost(Seq::empty()) }
    }

    /// Whether the device may still send a reading.
    pub fn has_room(&self) -> (r: bool)
        requires
            self.wf(),
        ensures
            r == (self.chunks().len() < MAX_SENSOR_BUFFER),
    {
        self.buffer.len() / 7 < MAX_SENSOR_BUFFER
    }

    /// Takes in the bytes of one read chunk, filling the chunk up to a
    /// reading with zeros. Tells whether a progress report is due: one every
    /// 250 readings' worth of bytes.
    pub fn add_chunk(&mut self, bytes: &[u8]) -> (progress: bool)
        requires
            old(self).wf(),
            bytes@.len() <= BYTES_IN_READING,
            old(self).chunks().len() < MAX_SENSOR_BUFFER,
        ensures
            final(self).wf(),
            final(self).chunks() == old(self).chunks().push(bytes@),
            progress == (chunks_total(final(self).chunks()) % (BYTES_IN_READING * 250) as nat == 0),
    {
        let ghost before = self.buffer@;
        let ghost total = self.total;
        let ghost chunks = self.chunks@;
        proof {
            lemma_chunks_total_bound(chunks);
        }
        let mut i: usize = 0;
        while i < bytes.len()
            invariant
                i <= bytes@.len(),
                bytes@.len() <= 7,
                self.buffer@ == before + bytes@.take(i as int),
                self.total == total,
                self.chunks@ == chunks,
            decreases bytes@.len() - i,
        {
            self.buffer.push(bytes[i]);
            assert(bytes@.take(i + 1) =~= bytes@.take(i as int).push(bytes@[i as int]));
            i = i + 1;
        }
        assert(bytes@.take(i as int) =~= bytes@);
        let ghost read = self.buffer@;
        while i < BYTES_IN_READING
            invariant
                bytes@.len() <= i <= 7,
                self.buffer@ == read + zeros((i - bytes@.len()) as nat),
                self.total == total,
                self.chunks@ == chunks,
            decreases 7 - i,
        {
            self.buffer.push(0);
            assert(zeros((i + 1 - bytes@.len()) as nat) =~= zeros((i - bytes@.len()) as nat).push(
                0u8,
            ));
            i = i + 1;
        }
        assert(self.buffer@ =~= before + padded_chunk(bytes@));
        assert(total <= chunks.len() * 7);
        assert(chunks.len() < MAX_SENSOR_BUFFER);
        self.total = self.total + bytes.len();
        self.chunks = Ghost(chunks.push(bytes@));
        assert(self.chunks@.drop_last() =~= chunks);
        assert forall|j: int| 0 <= j < self.chunks@.len() implies (#[trigger] self.chunks@[j]).len()
            <= 7 by {
            if j < chunks.len() {
                assert(self.chunks@[j] == chunks[j]);
            }
        }
        self.total % (BYTES_IN_READING * 250) == 0
    }

    /// The number of bytes read so far.
    pub fn total_read(&self) -> (n: usize)
        requires
            self.wf(),
        ensures
            n == chunks_total(self.chunks()),
    {
        self.total
    }

    /// The bytes read: the start of the room, as many bytes as were read.
    pub fn into_readings(self) -> (data: Vec<u8>)
        requires
            self.wf(),
        ensures
            data@ == collected(self.chunks()),
    {
        proof {
            lemma_chunks_total_bound(self.chunks@);
        }
        let mut buffer = self.buffer;
        buffer.truncate(self.total);
        buffer
    }
}

/// Chunks of at most a reading hold at most a reading's bytes each.
pub proof fn lemma_chunks_total_bound(chunks: Seq<Seq<u8>>)
    requires
        forall|i: int| 0 <= i < chunks.len() ==> (#[trigger] chunks[i]).len() <= 7,
    ensures
        chunks_total(chunks) <= chunks.len() * 7,
        padded_chunks(chunks).len() == chunks.len() * 7,
    decreases chunks.len(),
{
    if chunks.len() > 0 {
        let rest = chunks.drop_last();
        assert forall|i: int| 0 <= i < rest.len() implies (#[trigger] rest[i]).len() <= 7 by {
            assert(rest[i] == chunks[i]);
        }
        lemma_chunks_total_bound(rest);
        assert(chunks.last() == chunks[chunks.len() - 1]);
    }
}

/// When every chunk is a whole reading, the data kept is exactly the bytes
/// read, one chunk after the other: no byte is lost or shifted.
pub proof fn law_whole_chunks_kept(chunks: Seq<Seq<u8>>)
    requires
        forall|i: int| 0 <= i < chunks.len() ==> (#[trigger] chunks[i]).len() == BYTES_IN_READING,
    ensures
        collected(chunks) == joined_chunks(chunks),
    decreases chunks.len(),
{
    lemma_whole_chunks(chunks);
    assert(padded_chunks(chunks).take(chunks_total(chunks) as int) =~= padded_chunks(chunks));
}

/// Whole chunks take exactly their own room.
proof fn lemma_whole_chunks(chunks: Seq<Seq<u8>>)
    requires
        forall|i: int| 0 <= i < chunks.len() ==> (#[trigger] chunks[i]).len() == BYTES_IN_READING,
    ensures
        padded_chunks(chunks) == joined_chunks(chunks),
        chunks_total(chunks) == padded_chunks(chunks).len(),
    decreases chunks.len(),
{
    if chunks.len() > 0 {
        let rest = chunks.drop_last();
        assert forall|i: int| 0 <= i < rest.len() implies (#[trigger] rest[i]).len()
            == BYTES_IN_READING by {
            assert(rest[i] == chunks[i]);
        }
        lemma_whole_chunks(rest);
        let last = chunks.last();
        assert(last == chunks[chunks.len() - 1]);
        assert(padded_chunk(last) =~= last);
    }
}

/// The data kept holds every byte read: its length is the number of bytes
/// read, and it is the room the chunks take up to that length.
pub proof fn law_collected_length(chunks: Seq<Seq<u8>>)
    requires
        forall|i: int| 0 <= i < chunks.len() ==> (#[trigger] chunks[i]).len() <= BYTES_IN_READING,
    ensures
        collected(chunks).len() == chunks_total(chunks),
        collected(chunks).len() <= chunks.len() * BYTES_IN_READING,
{
    lemma_chunks_total_bound(chunks);
}

/// The number of zero bytes that bring `n` bytes up to whole readings.
pub open spec fn padding_len(n: nat) -> nat {
    ((BYTES_IN_READING - n % 7) % 7) as nat
}

/// Fills the last reading of `raw_data` up with zeros, so that the data
/// holds whole readings.
pub fn pad_to_readings(raw_data: Vec<u8>) -> (data: Vec<u8>)
    requires
        raw_data@.len() + BYTES_IN_READING <= usize::MAX,
    ensures
        data@ == raw_data@ + zeros(padding_len(raw_data@.len())),
        data@.len() % 7 == 0,
        raw_data@.len() % 7 == 0 ==> data@ == raw_data@,
        data@.len() < raw_data@.len() + BYTES_IN_READING,
        data@.take(raw_data@.len() as int) == raw_data@,
        forall|j: int| raw_data@.len() <= j < data@.len() ==> data@[j] == 0,
{
    let mut data = raw_data;
    let ghost start = data@;
    while data.len() % BYTES_IN_READING != 0
        invariant
            start.len() + 7 <= usize::MAX,
            start.len() <= data@.len() <= start.len() + padding_len(start.len()),
            data@ == start + zeros((data@.len() - start.len()) as nat),
        decreases start.len() + padding_len(start.len()) - data@.len(),
    {
        assert(data@.len() < start.len() + padding_len(start.len())) by {
            if data@.len() == start.len() + padding_len(start.len()) {
                assert(data@.len() % 7 == 0);
            }
        }
        let ghost k = (data@.len() - start.len()) as nat;
        data.push(0);
        assert(zeros(k + 1) =~= zeros(k).push(0u8));
    }
    assert(data@.len() == start.len() + padding_len(start.len())) by {
        assert((data@.len() - start.len()) <= padding_len(start.len()));
    }
    proof {
        law_padding_len(start.len());
        assert(data@.take(start.len() as int) =~= start);
        if start.len() % 7 == 0 {
            assert(data@ =~= start);
        }
    }
    data
}


/// Padding adds the fewest zeros that make whole readings: none to whole
/// readings, at most six otherwise.
pub proof fn law_padding_len(n: nat)
    ensures
        (n + padding_len(n)) % 7 == 0,
        padding_len(n) < BYTES_IN_READING,
        n % 7 == 0 <==> padding_len(n) == 0,
{
    assert((n + padding_len(n)) % 7 == 0) by (nonlinear_arith)
        requires
            padding_len(n) == ((7 - n % 7) % 7) as nat,
    ;
}

} // verus!
